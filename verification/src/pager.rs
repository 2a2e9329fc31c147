//! Pages: which there are, what they hold, and which of them are still to be written back.
use vstd::prelude::*;
use crate::bytes::{enc64, le64, lemma_enc64, push_u64, read_u64, splice, zeros};
use crate::constants::{
    MetaData, NodeHeader, NodeType, PageId, INVALID_PAGE_ID, META_PAGE_ID, META_SIZE, PAGE_SIZE,
    ROOT_PAGE_ID,
};
use crate::entries::Entry;
use crate::error::{KvdbError, Result};
use crate::shape::{empty_shape, lemma_fresh_sound, shape_of};
use crate::space::in_step;
use crate::storage::{changed_all, written, Change, FileOp, StoredFile};
use crate::store::sound;

pub use crate::page::Page;

verus! {

/// What a set of pages holds. Pages that were never written hold zeros.
pub type Pages = Map<PageId, Seq<u8>>;

/// A page as it stands in a file; what lies behind the end of the file reads as zeros.
pub open spec fn file_page(b: Seq<u8>, id: PageId) -> Seq<u8> {
    Seq::new(
        PAGE_SIZE as nat,
        |j: int|
            if id * PAGE_SIZE + j < b.len() {
                b[id * PAGE_SIZE + j]
            } else {
                0u8
            },
    )
}

/// All pages of a file.
pub open spec fn file_pages(b: Seq<u8>) -> Pages {
    Map::total(|id: PageId| file_page(b, id))
}

/// The page lies where memory can hold it.
pub open spec fn addressable(id: PageId) -> bool {
    (id + 1) * PAGE_SIZE <= usize::MAX
}

/// The metadata that the pages hold.
pub open spec fn meta_of(pages: Pages) -> MetaData {
    MetaData::decoded(pages[META_PAGE_ID])
}

/// The metadata agree in all that has nothing to do with where the tree begins and which pages
/// are in use.
pub open spec fn same_settings(m: MetaData, n: MetaData) -> bool {
    &&& n.magic == m.magic
    &&& n.version == m.version
    &&& n.page_size == m.page_size
    &&& n.wal_offset == m.wal_offset
}

/// The pages with other metadata.
pub open spec fn with_meta(pages: Pages, m: MetaData) -> Pages {
    pages.insert(META_PAGE_ID, splice(pages[META_PAGE_ID], 0, m.encoded()))
}

/// The page that follows a free page in the list of free pages.
pub open spec fn next_free(pages: Pages, id: PageId) -> PageId {
    le64(pages[id], 0)
}

/// The free pages, linked one to the next from `head` on.
pub open spec fn chain(pages: Pages, head: PageId, list: Seq<PageId>) -> bool
    decreases list.len(),
{
    if list.len() == 0 {
        head == INVALID_PAGE_ID
    } else {
        head != INVALID_PAGE_ID && addressable(head) && head == list[0] && chain(
            pages,
            next_free(pages, head),
            list.drop_first(),
        )
    }
}

/// The metadata and the empty root of a new database.
pub open spec fn fresh_pages() -> Pages {
    Map::total(
        |id: PageId|
            if id == META_PAGE_ID {
                splice(zeros(PAGE_SIZE as nat), 0, MetaData::fresh().encoded())
            } else if id == ROOT_PAGE_ID {
                splice(
                    zeros(PAGE_SIZE as nat),
                    0,
                    (NodeHeader { node_type: NodeType::Leaf, num_keys: 0, _reserved: 0 }).encoded(),
                )
            } else {
                zeros(PAGE_SIZE as nat)
            },
    )
}

/// Written metadata are read back, and the rest of the page stays.
pub proof fn lemma_with_meta(pages: Pages, m: MetaData)
    requires
        pages[META_PAGE_ID].len() == PAGE_SIZE,
    ensures
        meta_of(with_meta(pages, m)) == m,
        with_meta(pages, m)[META_PAGE_ID].len() == PAGE_SIZE,
{
    let q = with_meta(pages, m)[META_PAGE_ID];
    assert(m.encoded().len() == META_SIZE) by {
        m.lemma_encoded_len();
    }
    assert(q.subrange(0, META_SIZE as int) =~= m.encoded());
    m.lemma_decoded(q);
}

/// A list of free pages is determined by its head.
pub proof fn lemma_chain_unique(pages: Pages, head: PageId, a: Seq<PageId>, b: Seq<PageId>)
    requires
        chain(pages, head, a),
        chain(pages, head, b),
    ensures
        a == b,
    decreases a.len(),
{
    if a.len() == 0 || b.len() == 0 {
        assert(a =~= b);
    } else {
        lemma_chain_unique(pages, next_free(pages, head), a.drop_first(), b.drop_first());
        assert(a =~= seq![a[0]] + a.drop_first());
        assert(b =~= seq![b[0]] + b.drop_first());
    }
}

/// The list of free pages is the same in pages that agree on them.
pub proof fn lemma_chain_frame(p: Pages, q: Pages, head: PageId, list: Seq<PageId>)
    requires
        chain(p, head, list),
        forall|i: int| 0 <= i < list.len() ==> p[#[trigger] list[i]] == q[list[i]],
    ensures
        chain(q, head, list),
    decreases list.len(),
{
    if list.len() > 0 {
        let rest = list.drop_first();
        assert(p[list[0]] == q[list[0]]);
        assert forall|i: int| 0 <= i < rest.len() implies p[#[trigger] rest[i]] == q[rest[i]] by {
            assert(rest[i] == list[i + 1]);
        }
        lemma_chain_frame(p, q, next_free(p, head), rest);
    }
}

/// The metadata lead to a list of free pages.
pub open spec fn has_free_list(pages: Pages) -> bool {
    exists|list: Seq<PageId>| #[trigger]
        chain(pages, meta_of(pages).freelist_page, list) && list.len() <= u64::MAX
}

/// The free pages, in the order in which they are handed out.
pub open spec fn free_list(pages: Pages) -> Seq<PageId> {
    choose|list: Seq<PageId>| #[trigger]
        chain(pages, meta_of(pages).freelist_page, list) && list.len() <= u64::MAX
}

/// The number that the next new page of an opened file gets: the one behind the last page, by the
/// metadata where they are valid, else by the length of the file.
pub open spec fn opened_next(b: Seq<u8>) -> int {
    let m = meta_of(file_pages(b));
    if m.valid() {
        m.last_page_id + 1
    } else {
        b.len() as int / PAGE_SIZE as int
    }
}

/// A new page comes from the list of free pages where there is one.
pub open spec fn reuses(pages: Pages, next: PageId) -> bool {
    next > ROOT_PAGE_ID && meta_of(pages).freelist_page != INVALID_PAGE_ID
}

/// The number of the page that is handed out next.
pub open spec fn allocated(pages: Pages, next: PageId) -> PageId {
    if reuses(pages, next) {
        meta_of(pages).freelist_page
    } else {
        next
    }
}

/// The pages after a page has been handed out: it is cleared, and the metadata take note of it.
pub open spec fn after_allocate(pages: Pages, next: PageId) -> Pages {
    let m = meta_of(pages);
    let id = allocated(pages, next);
    if reuses(pages, next) {
        with_meta(pages, MetaData { freelist_page: next_free(pages, id), ..m }).insert(
            id,
            zeros(PAGE_SIZE as nat),
        )
    } else if next > ROOT_PAGE_ID {
        with_meta(
            pages.insert(id, zeros(PAGE_SIZE as nat)),
            MetaData { last_page_id: id, ..m },
        )
    } else {
        pages.insert(id, zeros(PAGE_SIZE as nat))
    }
}

/// The pages after a page has been put on the list of free pages.
pub open spec fn after_free(pages: Pages, id: PageId) -> Pages {
    let m = meta_of(pages);
    with_meta(
        pages.insert(id, splice(zeros(PAGE_SIZE as nat), 0, enc64(m.freelist_page))),
        MetaData { freelist_page: id, ..m },
    )
}

/// A page that was read or made, under its number.
pub struct CacheEntry {
    page_id: PageId,
    page: Box<Page>,
}

/// The pairs that were handed to functions, one for each call, in the order of the calls.
pub struct Handed {
    pairs: Ghost<Seq<Entry>>,
}

impl Handed {
    /// The pairs.
    pub closed spec fn pairs(&self) -> Seq<Entry> {
        self.pairs@
    }

    /// Hands the pair to the function, which can be called once and no more.
    pub fn hand<G: FnOnce(&[u8], &[u8])>(&mut self, g: G, key: &[u8], value: &[u8])
        requires
            call_requires(g, (key, value)),
        ensures
            call_ensures(g, (key, value), ()),
            final(self).pairs() == old(self).pairs().push((key@, value@)),
    {
        proof {
            self.pairs@ = self.pairs@.push((key@, value@));
        }
        g(key, value)
    }
}

/// Page manager responsible for all page-level operations.
pub struct Pager {
    pub file: StoredFile,
    pub page_size: usize,
    pub cache: Vec<CacheEntry>,
    pub next_page_id: PageId,
    pub handed: Handed,
}

/// Whether the page is in the cache.
spec fn in_cache(c: Seq<CacheEntry>, id: PageId) -> bool {
    exists|i: int| 0 <= i < c.len() && (#[trigger] c[i]).page_id == id
}

/// The place of a page in the cache.
spec fn place(c: Seq<CacheEntry>, id: PageId) -> int {
    choose|i: int| 0 <= i < c.len() && (#[trigger] c[i]).page_id == id
}

/// What a page holds: what the cache has of it, else what the file has.
spec fn page_in(c: Seq<CacheEntry>, b: Seq<u8>, id: PageId) -> Seq<u8> {
    if in_cache(c, id) {
        c[place(c, id)].page.data@
    } else {
        file_page(b, id)
    }
}

/// The writes that bring the changed pages of the cache to the file.
spec fn writes_of(c: Seq<CacheEntry>) -> Seq<Change>
    decreases c.len(),
{
    if c.len() == 0 {
        Seq::empty()
    } else if c.last().page.is_dirty {
        writes_of(c.drop_last()).push(
            Change::Write(c.last().page_id * PAGE_SIZE, c.last().page.data@),
        )
    } else {
        writes_of(c.drop_last())
    }
}

/// No page is in the cache twice.
spec fn unique(c: Seq<CacheEntry>) -> bool {
    forall|i: int, j: int|
        0 <= i < j < c.len() ==> (#[trigger] c[i]).page_id != (#[trigger] c[j]).page_id
}

/// An entry is about its own page, and what is not marked as changed is as in the file.
spec fn entry_ok(e: CacheEntry, b: Seq<u8>) -> bool {
    &&& e.page.id == e.page_id
    &&& addressable(e.page_id)
    &&& !e.page.is_dirty ==> e.page.data@ == file_page(b, e.page_id)
}

proof fn lemma_place(c: Seq<CacheEntry>, i: int)
    requires
        unique(c),
        0 <= i < c.len(),
    ensures
        in_cache(c, c[i].page_id),
        place(c, c[i].page_id) == i,
{
    let id = c[i].page_id;
    let j = place(c, id);
    assert(0 <= j < c.len() && c[j].page_id == id);
    if j < i {
        assert(c[j].page_id != c[i].page_id);
    } else if i < j {
        assert(c[i].page_id != c[j].page_id);
    }
}

/// A page enters the cache: what the other pages hold stays.
proof fn lemma_page_in_push(c: Seq<CacheEntry>, b: Seq<u8>, e: CacheEntry)
    requires
        unique(c),
        !in_cache(c, e.page_id),
    ensures
        unique(c.push(e)),
        forall|x: PageId|
            #[trigger] in_cache(c.push(e), x) <==> in_cache(c, x) || x == e.page_id,
        forall|x: PageId|
            x != e.page_id ==> #[trigger] page_in(c.push(e), b, x) == page_in(c, b, x),
        page_in(c.push(e), b, e.page_id) == e.page.data@,
{
    let d = c.push(e);
    assert(unique(d)) by {
        assert forall|i: int, j: int| 0 <= i < j < d.len() implies (#[trigger] d[i]).page_id != (
        #[trigger] d[j]).page_id by {
            assert(d[i] == c[i]);
            if j < c.len() {
                assert(d[j] == c[j]);
            }
        }
    }
    lemma_place(d, c.len() as int);
    assert forall|x: PageId| #[trigger] in_cache(d, x) <==> in_cache(c, x) || x == e.page_id by {
        if in_cache(c, x) {
            let i = place(c, x);
            assert(d[i] == c[i]);
        }
        if in_cache(d, x) {
            let i = place(d, x);
            if i < c.len() {
                assert(d[i] == c[i]);
            }
        }
    }
    assert forall|x: PageId| x != e.page_id implies #[trigger] page_in(d, b, x) == page_in(
        c,
        b,
        x,
    ) by {
        assert(in_cache(d, x) == in_cache(c, x));
        if in_cache(c, x) {
            let i = place(c, x);
            assert(d[i] == c[i]);
            lemma_place(d, i);
        }
    }
}

/// A page of the cache changes: what the other pages hold stays.
proof fn lemma_page_in_update(c: Seq<CacheEntry>, b: Seq<u8>, i: int, e: CacheEntry)
    requires
        unique(c),
        0 <= i < c.len(),
        e.page_id == c[i].page_id,
    ensures
        unique(c.update(i, e)),
        forall|x: PageId| #[trigger] in_cache(c.update(i, e), x) <==> in_cache(c, x),
        forall|x: PageId|
            x != e.page_id ==> #[trigger] page_in(c.update(i, e), b, x) == page_in(c, b, x),
        page_in(c.update(i, e), b, e.page_id) == e.page.data@,
        page_in(c, b, e.page_id) == c[i].page.data@,
{
    let d = c.update(i, e);
    assert forall|j: int| 0 <= j < c.len() implies (#[trigger] d[j]).page_id == c[j].page_id by {}
    lemma_place(c, i);
    lemma_place(d, i);
    assert forall|x: PageId| #[trigger] in_cache(d, x) <==> in_cache(c, x) by {
        if in_cache(c, x) {
            let j = place(c, x);
            assert(d[j].page_id == x);
        }
        if in_cache(d, x) {
            let j = place(d, x);
            assert(c[j].page_id == x);
        }
    }
    assert forall|x: PageId| x != e.page_id implies #[trigger] page_in(d, b, x) == page_in(
        c,
        b,
        x,
    ) by {
        if in_cache(c, x) {
            let j = place(c, x);
            assert(d[j] == c[j]);
            lemma_place(d, j);
        }
    }
}

/// A cache without changed pages asks for no writes.
proof fn lemma_writes_of_clean(c: Seq<CacheEntry>)
    requires
        forall|i: int| 0 <= i < c.len() ==> !(#[trigger] c[i]).page.is_dirty,
    ensures
        writes_of(c) == Seq::<Change>::empty(),
    decreases c.len(),
{
    if c.len() > 0 {
        let d = c.drop_last();
        assert forall|i: int| 0 <= i < d.len() implies !(#[trigger] d[i]).page.is_dirty by {
            assert(d[i] == c[i]);
        }
        lemma_writes_of_clean(d);
        assert(c.last() == c[c.len() - 1]);
    }
}

/// A page that is written to the file is there; the other pages of the file stay.
proof fn lemma_file_page_written(b: Seq<u8>, id: PageId, d: Seq<u8>)
    requires
        d.len() == PAGE_SIZE,
    ensures
        file_page(written(b, id * PAGE_SIZE, d), id) == d,
        forall|x: PageId|
            x != id ==> #[trigger] file_page(written(b, id * PAGE_SIZE, d), x) == file_page(b, x),
{
    let w = written(b, id * PAGE_SIZE, d);
    assert(file_page(w, id) =~= d);
    assert forall|x: PageId| x != id implies #[trigger] file_page(w, x) == file_page(b, x) by {
        assert(file_page(w, x) =~= file_page(b, x));
    }
}

/// What the cache holds when its first `i` pages have been written to the file.
spec fn flushed(c: Seq<CacheEntry>, i: int) -> Seq<CacheEntry> {
    Seq::new(
        c.len(),
        |j: int|
            if j < i {
                CacheEntry {
                    page_id: c[j].page_id,
                    page: Box::new(Page { is_dirty: false, ..*c[j].page }),
                }
            } else {
                c[j]
            },
    )
}

/// Marking pages as written leaves what they hold.
proof fn lemma_page_in_flushed(c: Seq<CacheEntry>, b: Seq<u8>, b2: Seq<u8>, i: int)
    requires
        unique(c),
        forall|x: PageId|
            !in_cache(c, x) ==> #[trigger] file_page(b2, x) == file_page(b, x),
    ensures
        unique(flushed(c, i)),
        forall|x: PageId| #[trigger] in_cache(flushed(c, i), x) <==> in_cache(c, x),
        forall|x: PageId| #[trigger] page_in(flushed(c, i), b2, x) == page_in(c, b, x),
{
    let d = flushed(c, i);
    assert forall|j: int| 0 <= j < c.len() implies (#[trigger] d[j]).page_id == c[j].page_id
        && d[j].page.data@ == c[j].page.data@ by {}
    assert forall|x: PageId| #[trigger] in_cache(d, x) <==> in_cache(c, x) by {
        if in_cache(c, x) {
            let j = place(c, x);
            assert(d[j].page_id == x);
        }
        if in_cache(d, x) {
            let j = place(d, x);
            assert(c[j].page_id == x);
        }
    }
    assert forall|x: PageId| #[trigger] page_in(d, b2, x) == page_in(c, b, x) by {
        assert(in_cache(d, x) <==> in_cache(c, x));
        if in_cache(c, x) {
            let j = place(c, x);
            assert(d[j].page_id == c[j].page_id);
            lemma_place(d, j);
        }
    }
}

impl Pager {
    /// What the pages hold.
    pub closed spec fn pages(&self) -> Pages {
        Map::total(|id: PageId| page_in(self.cache@, self.file.bytes(), id))
    }

    /// What the file holds once the pending changes are carried out.
    pub closed spec fn file_bytes(&self) -> Seq<u8> {
        self.file.bytes()
    }

    /// The changes to the file that are still to be carried out.
    pub closed spec fn pending(&self) -> Seq<Change> {
        self.file.pending()
    }

    /// The writes that a flush would add to them.
    pub closed spec fn dirty_writes(&self) -> Seq<Change> {
        writes_of(self.cache@)
    }

    /// The pages that have been read or made since the file was opened.
    pub closed spec fn seen(&self) -> Set<PageId> {
        Set::new(|id: PageId| in_cache(self.cache@, id))
    }

    /// The number that the next new page gets.
    pub open spec fn next(&self) -> PageId {
        self.next_page_id
    }

    /// The cache holds each page once, under its own number, and says which ones changed.
    pub closed spec fn wf(&self) -> bool {
        &&& self.page_size == PAGE_SIZE
        &&& self.file.bytes().len() <= usize::MAX
        &&& unique(self.cache@)
        &&& forall|i: int|
            0 <= i < self.cache@.len() ==> entry_ok(#[trigger] self.cache@[i], self.file.bytes())
    }

    /// Whether the page is in the cache.
    pub fn is_seen(&self, page_id: PageId) -> (r: bool)
        ensures
            r == self.seen().contains(page_id),
    {
        match self.find(page_id) {
            Some(_) => true,
            None => false,
        }
    }

    /// The number that the next new page gets.
    pub fn next_number(&self) -> (id: PageId)
        ensures
            id == self.next(),
    {
        self.next_page_id
    }

    fn find(&self, page_id: PageId) -> (r: Option<usize>)
        ensures
            match r {
                Some(i) => i < self.cache@.len() && self.cache@[i as int].page_id == page_id
                    && in_cache(self.cache@, page_id),
                None => !in_cache(self.cache@, page_id),
            },
    {
        let mut i: usize = 0;
        while i < self.cache.len()
            invariant
                i <= self.cache@.len(),
                forall|j: int| 0 <= j < i ==> (#[trigger] self.cache@[j]).page_id != page_id,
            decreases self.cache@.len() - i,
        {
            if self.cache[i].page_id == page_id {
                return Some(i);
            }
            i += 1;
        }
        None
    }

    fn load_page(&mut self, page_id: PageId)
        requires
            old(self).wf(),
            addressable(page_id),
            !old(self).seen().contains(page_id),
        ensures
            final(self).wf(),
            final(self).pages() == old(self).pages(),
            final(self).file_bytes() == old(self).file_bytes(),
            final(self).pending() == old(self).pending(),
            final(self).dirty_writes() == old(self).dirty_writes(),
            final(self).next() == old(self).next(),
            final(self).handed == old(self).handed,
            final(self).seen() == old(self).seen().insert(page_id),
    {
        let mut page = Page::new(page_id);
        let offset: usize = page_id as usize * PAGE_SIZE;
        let ghost b = self.file.bytes();
        let contents = self.file.contents();
        let n: usize = contents.len();
        let mut i: usize = 0;
        while i < PAGE_SIZE && offset + i < n
            invariant
                i <= PAGE_SIZE,
                i == 0 || offset + i <= n,
                offset + PAGE_SIZE <= usize::MAX,
                offset == page_id * PAGE_SIZE,
                n == contents@.len(),
                contents@ == b,
                page.id == page_id,
                !page.is_dirty,
                forall|j: int| 0 <= j < i ==> #[trigger] page.data@[j] == b[offset + j],
                forall|j: int| i <= j < PAGE_SIZE ==> #[trigger] page.data@[j] == 0,
            decreases PAGE_SIZE - i,
        {
            page.data[i] = contents[offset + i];
            i += 1;
        }
        assert(page.data@ =~= file_page(b, page_id));
        let ghost c0 = self.cache@;
        let e = CacheEntry { page_id, page: Box::new(page) };
        proof {
            lemma_page_in_push(c0, b, e);
        }
        self.cache.push(e);
        proof {
            let c1 = self.cache@;
            assert(c1 == c0.push(e));
            assert(c1.drop_last() =~= c0);
            assert forall|j: int| 0 <= j < c1.len() implies entry_ok(#[trigger] c1[j], b) by {
                if j < c0.len() {
                    assert(c1[j] == c0[j]);
                }
            }
            assert(self.pages() =~= old(self).pages());
            assert(self.seen() =~= old(self).seen().insert(page_id));
        }
    }

    fn ensure_cached(&mut self, page_id: PageId)
        requires
            old(self).wf(),
            addressable(page_id),
        ensures
            final(self).wf(),
            final(self).pages() == old(self).pages(),
            final(self).file_bytes() == old(self).file_bytes(),
            final(self).pending() == old(self).pending(),
            final(self).dirty_writes() == old(self).dirty_writes(),
            final(self).next() == old(self).next(),
            final(self).handed == old(self).handed,
            final(self).seen() == old(self).seen().insert(page_id),
    {
        if !self.is_seen(page_id) {
            self.load_page(page_id);
        } else {
            assert(self.seen() =~= self.seen().insert(page_id));
        }
    }

    /// The page, read from the file where it is not in memory yet.
    pub fn get_page(&mut self, page_id: PageId) -> (r: Result<&Page>)
        requires
            old(self).wf(),
            addressable(page_id),
        ensures
            r matches Ok(p) && p.id == page_id && p.data@ == old(self).pages()[page_id],
            final(self).wf(),
            final(self).pages() == old(self).pages(),
            final(self).file_bytes() == old(self).file_bytes(),
            final(self).pending() == old(self).pending(),
            final(self).dirty_writes() == old(self).dirty_writes(),
            final(self).next() == old(self).next(),
            final(self).handed == old(self).handed,
            final(self).seen() == old(self).seen().insert(page_id),
    {
        self.ensure_cached(page_id);
        assert(self.seen().contains(page_id));
        match self.find(page_id) {
            Some(i) => {
                proof {
                    lemma_place(self.cache@, i as int);
                    assert(self.pages()[page_id] == self.cache@[i as int].page.data@);
                    assert(entry_ok(self.cache@[i as int], self.file.bytes()));
                }
                Ok(&*self.cache[i].page)
            },
            None => Err(KvdbError::PageNotFound(page_id)),
        }
    }

    /// The page, as it is read, and the record of the pairs that are handed over from it.
    pub fn page_to_hand(&mut self, page_id: PageId) -> (r: Result<(&Page, &mut Handed)>)
        requires
            old(self).wf(),
            addressable(page_id),
        ensures
            r is Ok,
            r->Ok_0.0.id == page_id,
            r->Ok_0.0.data@ == old(self).pages()[page_id],
            *r->Ok_0.1 == old(self).handed,
            final(self).handed == *final(r->Ok_0.1),
            final(self).wf(),
            final(self).pages() == old(self).pages(),
            final(self).file_bytes() == old(self).file_bytes(),
            final(self).pending() == old(self).pending(),
            final(self).dirty_writes() == old(self).dirty_writes(),
            final(self).next() == old(self).next(),
            final(self).seen() == old(self).seen().insert(page_id),
    {
        self.ensure_cached(page_id);
        assert(self.seen().contains(page_id));
        match self.find(page_id) {
            Some(i) => {
                proof {
                    lemma_place(self.cache@, i as int);
                    assert(self.pages()[page_id] == self.cache@[i as int].page.data@);
                    assert(entry_ok(self.cache@[i as int], self.file.bytes()));
                }
                Ok((&*self.cache[i].page, &mut self.handed))
            },
            None => Err(KvdbError::PageNotFound(page_id)),
        }
    }

    /// The page, to be changed. A change counts once the page is marked as changed.
    pub fn get_page_mut(&mut self, page_id: PageId) -> (r: Result<&mut Page>)
        requires
            old(self).wf(),
            addressable(page_id),
        ensures
            r is Ok,
            r->Ok_0.id == page_id,
            r->Ok_0.data@ == old(self).pages()[page_id],
            r->Ok_0.is_dirty || r->Ok_0.data@ == file_page(old(self).file_bytes(), page_id),
            final(self).pages() == old(self).pages().insert(page_id, final(r->Ok_0).data@),
            final(self).file_bytes() == old(self).file_bytes(),
            final(self).pending() == old(self).pending(),
            final(self).next() == old(self).next(),
            final(self).seen() == old(self).seen().insert(page_id),
            final(r->Ok_0).id == page_id && (final(r->Ok_0).is_dirty || final(r->Ok_0).data@
                == file_page(old(self).file_bytes(), page_id)) ==> final(self).wf(),
    {
        self.ensure_cached(page_id);
        assert(self.seen().contains(page_id));
        match self.find(page_id) {
            Some(i) => {
                let ghost c = self.cache@;
                let ghost b = self.file.bytes();
                proof {
                    lemma_place(c, i as int);
                    assert(self.pages()[page_id] == c[i as int].page.data@);
                    assert(entry_ok(c[i as int], b));
                    assert forall|e: CacheEntry|
                        #![trigger c.update(i as int, e)]
                        e.page_id == page_id implies {
                        &&& unique(c.update(i as int, e))
                        &&& Set::new(|x: PageId| in_cache(c.update(i as int, e), x))
                            == self.seen()
                        &&& Map::total(|id: PageId| page_in(c.update(i as int, e), b, id))
                            == self.pages().insert(page_id, e.page.data@)
                        &&& entry_ok(e, b) ==> forall|j: int|
                            0 <= j < c.len() ==> entry_ok(
                                #[trigger] c.update(i as int, e)[j],
                                b,
                            )
                    } by {
                        lemma_page_in_update(c, b, i as int, e);
                        assert(Set::new(|x: PageId| in_cache(c.update(i as int, e), x))
                            =~= self.seen());
                        assert(Map::total(|id: PageId| page_in(c.update(i as int, e), b, id))
                            =~= self.pages().insert(page_id, e.page.data@));
                        if entry_ok(e, b) {
                            assert forall|j: int| 0 <= j < c.len() implies entry_ok(
                                #[trigger] c.update(i as int, e)[j],
                                b,
                            ) by {
                                if j != i {
                                    assert(c.update(i as int, e)[j] == c[j]);
                                }
                            }
                        }
                    }
                }
                Ok(&mut *self.cache[i].page)
            },
            None => Err(KvdbError::PageNotFound(page_id)),
        }
    }

    /// Writes the changed pages back to the file.
    fn write_back(&mut self)
        requires
            old(self).wf(),
        ensures
            final(self).wf(),
            final(self).pages() == old(self).pages(),
            file_pages(final(self).file_bytes()) == old(self).pages(),
            final(self).file_bytes() == changed_all(
                old(self).file_bytes(),
                old(self).dirty_writes(),
            ),
            final(self).pending() == old(self).pending() + old(self).dirty_writes(),
            final(self).dirty_writes() == Seq::<Change>::empty(),
            final(self).next() == old(self).next(),
            final(self).seen() == old(self).seen(),
    {
        let ghost c = self.cache@;
        let ghost b = self.file.bytes();
        let n: usize = self.cache.len();
        let mut i: usize = 0;
        assert(flushed(c, 0) =~= c);
        assert(self.file.pending() =~= old(self).pending() + writes_of(c.take(0)));
        while i < n
            invariant
                n == c.len(),
                i <= n,
                unique(c),
                forall|j: int| 0 <= j < n ==> entry_ok(#[trigger] c[j], b),
                self.cache@ == flushed(c, i as int),
                self.page_size == PAGE_SIZE,
                self.next_page_id == old(self).next_page_id,
                self.file.bytes().len() <= usize::MAX,
                self.file.bytes() == changed_all(b, writes_of(c.take(i as int))),
                self.file.pending() == old(self).pending() + writes_of(c.take(i as int)),
                forall|x: PageId|
                    !in_cache(c, x) ==> #[trigger] file_page(self.file.bytes(), x) == file_page(
                        b,
                        x,
                    ),
                forall|j: int|
                    0 <= j < i ==> file_page(
                        self.file.bytes(),
                        (#[trigger] c[j]).page_id,
                    ) == c[j].page.data@,
                forall|j: int|
                    i <= j < n ==> file_page(
                        self.file.bytes(),
                        (#[trigger] c[j]).page_id,
                    ) == file_page(b, c[j].page_id),
            decreases n - i,
        {
            proof {
                assert(c.take(i + 1).drop_last() =~= c.take(i as int));
                assert(c.take(i + 1).last() == c[i as int]);
                assert(self.cache@[i as int] == c[i as int]);
                assert(entry_ok(c[i as int], b));
            }
            let ghost b1 = self.file.bytes();
            if self.cache[i].page.is_dirty {
                let page = &self.cache[i].page;
                let offset: u64 = page.id * PAGE_SIZE as u64;
                proof {
                    lemma_file_page_written(b1, page.id, page.data@);
                }
                self.file.write_at(offset, page.bytes());
                self.cache[i].page.is_dirty = false;
                proof {
                    let w = Change::Write(c[i as int].page_id * PAGE_SIZE, c[i as int].page.data@);
                    assert(writes_of(c.take(i + 1)) == writes_of(c.take(i as int)).push(w));
                    let ws = writes_of(c.take(i as int)).push(w);
                    assert(ws.drop_last() =~= writes_of(c.take(i as int)));
                    assert(self.file.pending() =~= old(self).pending() + ws);
                    assert forall|x: PageId| !in_cache(c, x) implies #[trigger] file_page(
                        self.file.bytes(),
                        x,
                    ) == file_page(b, x) by {
                        assert(file_page(b1, x) == file_page(b, x));
                        assert(c[i as int].page_id != x);
                    }
                }
            }
            assert(self.cache@ =~= flushed(c, i + 1));
            i += 1;
        }
        proof {
            let b2 = self.file.bytes();
            let d = self.cache@;
            assert(c.take(n as int) =~= c);
            lemma_page_in_flushed(c, b, b2, n as int);
            assert forall|j: int| 0 <= j < d.len() implies entry_ok(#[trigger] d[j], b2) by {
                assert(entry_ok(c[j], b));
            }
            assert(self.pages() =~= old(self).pages());
            assert forall|x: PageId| file_page(b2, x) == #[trigger] old(self).pages()[x] by {
                if in_cache(c, x) {
                    let j = place(c, x);
                    assert(c[j].page_id == x);
                } else {
                    assert(file_page(b2, x) == file_page(b, x));
                }
            }
            assert(file_pages(b2) =~= old(self).pages());
            lemma_writes_of_clean(d);
            assert(self.seen() =~= old(self).seen());
        }
    }

    /// Flush changed pages, then force them to disk.
    pub fn flush(&mut self) -> (r: Result<()>)
        requires
            old(self).wf(),
        ensures
            r is Ok,
            final(self).wf(),
            final(self).pages() == old(self).pages(),
            file_pages(final(self).file_bytes()) == old(self).pages(),
            final(self).file_bytes() == changed_all(
                old(self).file_bytes(),
                old(self).dirty_writes(),
            ),
            final(self).pending() == (old(self).pending() + old(self).dirty_writes()).push(
                Change::Sync,
            ),
            final(self).dirty_writes() == Seq::<Change>::empty(),
            final(self).next() == old(self).next(),
            final(self).seen() == old(self).seen(),
    {
        self.write_back();
        self.file.sync();
        Ok(())
    }

    /// Flush changed pages WITHOUT forcing them to disk (caller manages sync).
    pub fn flush_nosync(&mut self) -> (r: Result<()>)
        requires
            old(self).wf(),
        ensures
            r is Ok,
            final(self).wf(),
            final(self).pages() == old(self).pages(),
            file_pages(final(self).file_bytes()) == old(self).pages(),
            final(self).file_bytes() == changed_all(
                old(self).file_bytes(),
                old(self).dirty_writes(),
            ),
            final(self).pending() == old(self).pending() + old(self).dirty_writes(),
            final(self).dirty_writes() == Seq::<Change>::empty(),
            final(self).next() == old(self).next(),
            final(self).seen() == old(self).seen(),
    {
        self.write_back();
        Ok(())
    }

    /// Just force to disk without writing.
    pub fn sync(&mut self) -> (r: Result<()>)
        requires
            old(self).wf(),
        ensures
            r is Ok,
            final(self).wf(),
            final(self).pages() == old(self).pages(),
            final(self).file_bytes() == old(self).file_bytes(),
            final(self).pending() == old(self).pending().push(Change::Sync),
            final(self).dirty_writes() == old(self).dirty_writes(),
            final(self).next() == old(self).next(),
            final(self).seen() == old(self).seen(),
    {
        self.file.sync();
        Ok(())
    }

    /// The metadata.
    pub fn read_metadata(&mut self) -> (r: Result<MetaData>)
        requires
            old(self).wf(),
        ensures
            r matches Ok(m) && m == meta_of(old(self).pages()),
            final(self).wf(),
            final(self).pages() == old(self).pages(),
            final(self).file_bytes() == old(self).file_bytes(),
            final(self).pending() == old(self).pending(),
            final(self).dirty_writes() == old(self).dirty_writes(),
            final(self).next() == old(self).next(),
            final(self).seen() == old(self).seen().insert(META_PAGE_ID),
    {
        let page = self.get_page(META_PAGE_ID)?;
        Ok(MetaData::from_bytes(page.bytes()))
    }

    /// Replaces the metadata.
    pub fn write_metadata(&mut self, metadata: &MetaData) -> (r: Result<()>)
        requires
            old(self).wf(),
        ensures
            r is Ok,
            final(self).wf(),
            final(self).pages() == with_meta(old(self).pages(), *metadata),
            final(self).file_bytes() == old(self).file_bytes(),
            final(self).pending() == old(self).pending(),
            final(self).next() == old(self).next(),
            final(self).seen() == old(self).seen().insert(META_PAGE_ID),
    {
        let page = self.get_page_mut(META_PAGE_ID)?;
        let b = metadata.as_bytes();
        page.write(0, b.as_slice());
        Ok(())
    }

    /// Replaces the header of a node page.
    pub fn write_node_header(&mut self, page_id: PageId, header: &NodeHeader) -> (r: Result<()>)
        requires
            old(self).wf(),
            addressable(page_id),
        ensures
            r is Ok,
            final(self).wf(),
            final(self).pages() == old(self).pages().insert(
                page_id,
                splice(old(self).pages()[page_id], 0, header.encoded()),
            ),
            final(self).file_bytes() == old(self).file_bytes(),
            final(self).pending() == old(self).pending(),
            final(self).next() == old(self).next(),
            final(self).seen() == old(self).seen().insert(page_id),
    {
        let page = self.get_page_mut(page_id)?;
        let b = header.as_bytes();
        page.write(0, b.as_slice());
        Ok(())
    }

    /// Allocate a new page, reusing from freelist if possible.
    pub fn allocate_page(&mut self) -> (r: Result<PageId>)
        requires
            old(self).wf(),
            addressable(allocated(old(self).pages(), old(self).next())),
            reuses(old(self).pages(), old(self).next()) || !old(self).seen().contains(
                old(self).next(),
            ),
        ensures
            r matches Ok(id) && id == allocated(old(self).pages(), old(self).next()),
            final(self).wf(),
            final(self).page_size == PAGE_SIZE,
            final(self).pages() == after_allocate(old(self).pages(), old(self).next()),
            final(self).file_bytes() == old(self).file_bytes(),
            final(self).pending() == old(self).pending(),
            final(self).next() == (if reuses(old(self).pages(), old(self).next()) {
                old(self).next()
            } else {
                (old(self).next() + 1) as PageId
            }),
            final(self).seen() == (if old(self).next() > ROOT_PAGE_ID {
                old(self).seen().insert(META_PAGE_ID)
            } else {
                old(self).seen()
            }).insert(allocated(old(self).pages(), old(self).next())),
    {
        let ghost p0 = self.pages();
        let is_bootstrapping = self.next_page_id <= ROOT_PAGE_ID;
        if !is_bootstrapping {
            let metadata = self.read_metadata()?;
            if metadata.freelist_page != INVALID_PAGE_ID {
                let free_page_id = metadata.freelist_page;
                let page = self.get_page(free_page_id)?;
                let next_free = read_u64(page.bytes(), 0);
                let mut new_meta = metadata;
                new_meta.freelist_page = next_free;
                self.write_metadata(&new_meta)?;
                let page = self.get_page_mut(free_page_id)?;
                page.clear();
                proof {
                    assert(self.pages() =~= after_allocate(p0, old(self).next()));
                    assert(self.seen() =~= old(self).seen().insert(META_PAGE_ID).insert(
                        free_page_id,
                    ));
                }
                return Ok(free_page_id);
            }
        }
        let page_id = self.next_page_id;
        self.next_page_id += 1;
        let mut page = Page::new(page_id);
        page.clear();
        let ghost c = self.cache@;
        let ghost b = self.file.bytes();
        let e = CacheEntry { page_id, page: Box::new(page) };
        let ghost s0 = self.seen();
        proof {
            assert(!s0.contains(page_id)) by {
                if page_id == META_PAGE_ID {
                    assert(is_bootstrapping);
                }
            }
            assert(!in_cache(c, page_id));
            lemma_page_in_push(c, b, e);
        }
        self.cache.push(e);
        proof {
            let d = self.cache@;
            assert forall|j: int| 0 <= j < d.len() implies entry_ok(#[trigger] d[j], b) by {
                if j < c.len() {
                    assert(d[j] == c[j]);
                }
            }
            assert(self.pages() =~= p0.insert(page_id, zeros(PAGE_SIZE as nat)));
            assert(self.seen() =~= s0.insert(page_id));
        }
        if !is_bootstrapping {
            let mut metadata = self.read_metadata()?;
            metadata.last_page_id = page_id;
            self.write_metadata(&metadata)?;
            proof {
                assert(self.pages() =~= after_allocate(p0, old(self).next()));
                assert(self.seen() =~= old(self).seen().insert(META_PAGE_ID).insert(page_id));
            }
        }
        Ok(page_id)
    }

    /// Free a page back to the freelist.
    pub fn free_page(&mut self, page_id: PageId) -> (r: Result<()>)
        requires
            old(self).wf(),
            addressable(page_id),
        ensures
            r is Ok,
            final(self).wf(),
            final(self).pages() == after_free(old(self).pages(), page_id),
            final(self).file_bytes() == old(self).file_bytes(),
            final(self).pending() == old(self).pending(),
            final(self).next() == old(self).next(),
            final(self).seen() == old(self).seen().insert(META_PAGE_ID).insert(page_id),
    {
        let ghost p0 = self.pages();
        let metadata = self.read_metadata()?;
        let old_head = metadata.freelist_page;
        let mut b: Vec<u8> = Vec::with_capacity(8);
        push_u64(&mut b, old_head);
        proof {
            lemma_enc64(old_head);
            assert(b@ =~= enc64(old_head));
        }
        let page = self.get_page_mut(page_id)?;
        page.clear();
        page.write(0, b.as_slice());
        let mut new_meta = metadata;
        new_meta.freelist_page = page_id;
        self.write_metadata(&new_meta)?;
        proof {
            assert(self.pages() =~= after_free(p0, page_id));
            assert(self.seen() =~= old(self).seen().insert(META_PAGE_ID).insert(page_id));
        }
        Ok(())
    }

    /// Count freelist pages.
    pub fn count_freelist_pages(&mut self) -> (r: Result<u64>)
        requires
            old(self).wf(),
            has_free_list(old(self).pages()),
        ensures
            r matches Ok(n) && n == free_list(old(self).pages()).len(),
            final(self).wf(),
            final(self).pages() == old(self).pages(),
            final(self).file_bytes() == old(self).file_bytes(),
            final(self).pending() == old(self).pending(),
            final(self).dirty_writes() == old(self).dirty_writes(),
            final(self).next() == old(self).next(),
            forall|x: PageId| #[trigger]
                final(self).seen().contains(x) ==> old(self).seen().contains(x) || x
                    == META_PAGE_ID || free_list(old(self).pages()).contains(x),
    {
        let ghost p0 = self.pages();
        let ghost list = free_list(p0);
        let metadata = self.read_metadata()?;
        let mut count: u64 = 0;
        let mut current = metadata.freelist_page;
        let ghost mut rest = list;
        while current != INVALID_PAGE_ID
            invariant
                self.wf(),
                self.pages() == p0,
                self.file_bytes() == old(self).file_bytes(),
                self.pending() == old(self).pending(),
                self.dirty_writes() == old(self).dirty_writes(),
                self.next() == old(self).next(),
                list == free_list(old(self).pages()),
                list.len() <= u64::MAX,
                chain(p0, current, rest),
                count + rest.len() == list.len(),
                forall|i: int| 0 <= i < rest.len() ==> list.contains(#[trigger] rest[i]),
                forall|x: PageId| #[trigger]
                    self.seen().contains(x) ==> old(self).seen().contains(x) || x
                        == META_PAGE_ID || list.contains(x),
            decreases rest.len(),
        {
            count += 1;
            assert(list.contains(rest[0]));
            let page = self.get_page(current)?;
            current = read_u64(page.bytes(), 0);
            proof {
                let r1 = rest.drop_first();
                assert forall|i: int| 0 <= i < r1.len() implies list.contains(
                    #[trigger] r1[i],
                ) by {
                    assert(r1[i] == rest[i + 1]);
                }
                rest = r1;
            }
        }
        Ok(count)
    }

    /// Opens the pages of a file, given what it holds. An empty file becomes an empty database.
    pub fn new(file: Vec<u8>) -> (r: Result<Self>)
        requires
            file@.len() > 0 ==> opened_next(file@) <= u64::MAX,
        ensures
            r is Ok,
            r->Ok_0.wf(),
            r->Ok_0.page_size == PAGE_SIZE,
            changed_all(file@, r->Ok_0.pending()) == r->Ok_0.file_bytes(),
            file_pages(r->Ok_0.file_bytes()) == r->Ok_0.pages(),
            r->Ok_0.pending().len() > 0 ==> r->Ok_0.pending().last() == Change::Sync,
            r->Ok_0.dirty_writes() == Seq::<Change>::empty(),
            file@.len() == 0 ==> {
                &&& r->Ok_0.pages() == fresh_pages()
                &&& r->Ok_0.next() == 2
                &&& r->Ok_0.seen() == set![META_PAGE_ID, ROOT_PAGE_ID]
                &&& meta_of(r->Ok_0.pages()) == MetaData::fresh()
                &&& sound(r->Ok_0.pages(), ROOT_PAGE_ID)
                &&& shape_of(r->Ok_0.pages(), ROOT_PAGE_ID) == empty_shape()
                &&& in_step(&r->Ok_0)
            },
            file@.len() > 0 ==> {
                &&& r->Ok_0.file_bytes() == file@
                &&& r->Ok_0.pending() == Seq::<Change>::empty()
                &&& r->Ok_0.next() == opened_next(file@)
                &&& r->Ok_0.seen() == set![META_PAGE_ID]
            },
    {
        let size: usize = file.len();
        let ghost b = file@;
        let mut pager = Pager {
            file: StoredFile::new(file),
            page_size: PAGE_SIZE,
            cache: Vec::with_capacity(8),
            next_page_id: (size / PAGE_SIZE) as u64,
            handed: Handed { pairs: Ghost(Seq::empty()) },
        };
        proof {
            assert(pager.pages() =~= file_pages(b));
            assert(pager.seen() =~= Set::empty());
            assert(writes_of(pager.cache@) =~= Seq::empty());
        }
        if size == 0 {
            pager.next_page_id = 0;
            assert(pager.pages() =~= file_pages(b));
            assert(b =~= Seq::empty());
            pager.allocate_metadata_pages()?;
            proof {
                lemma_fresh_sound();
            }
        } else {
            let metadata = pager.read_metadata()?;
            if metadata.is_valid() {
                pager.next_page_id = metadata.last_page_id + 1;
                assert(pager.pages() =~= file_pages(b));
            }
            assert(pager.seen() =~= set![META_PAGE_ID]);
        }
        Ok(pager)
    }

    fn allocate_metadata_pages(&mut self) -> (r: Result<()>)
        requires
            old(self).wf(),
            old(self).pages() == file_pages(Seq::empty()),
            old(self).file_bytes() == Seq::<u8>::empty(),
            old(self).pending() == Seq::<Change>::empty(),
            old(self).next() == 0,
            old(self).seen() == Set::<PageId>::empty(),
        ensures
            r is Ok,
            final(self).wf(),
            final(self).pages() == fresh_pages(),
            file_pages(final(self).file_bytes()) == fresh_pages(),
            final(self).file_bytes() == changed_all(Seq::empty(), final(self).pending()),
            final(self).pending().last() == Change::Sync,
            final(self).dirty_writes() == Seq::<Change>::empty(),
            final(self).next() == 2,
            final(self).seen() == set![META_PAGE_ID, ROOT_PAGE_ID],
    {
        let ghost p0 = self.pages();
        assert forall|x: PageId| #[trigger] p0[x] == zeros(PAGE_SIZE as nat) by {
            assert(p0[x] =~= zeros(PAGE_SIZE as nat));
        }
        let _ = self.allocate_page()?;
        let root_page_id = self.allocate_page()?;
        // Initialize root as empty leaf
        let root = self.get_page_mut(root_page_id)?;
        let header = NodeHeader::new(NodeType::Leaf);
        let h = header.as_bytes();
        root.write(0, h.as_slice());
        self.write_metadata(&MetaData::new())?;
        assert(self.pages() =~= fresh_pages());
        let ghost ws = self.dirty_writes();
        self.flush()?;
        proof {
            assert(self.seen() =~= set![META_PAGE_ID, ROOT_PAGE_ID]);
            assert(self.pending() =~= ws.push(Change::Sync));
            assert(self.pending().drop_last() =~= ws);
        }
        Ok(())
    }

    /// Forgets all changes since the last flush.
    pub fn revert(&mut self)
        requires
            old(self).wf(),
            opened_next(old(self).file_bytes()) <= u64::MAX,
        ensures
            final(self).wf(),
            final(self).pages() == file_pages(old(self).file_bytes()),
            final(self).file_bytes() == old(self).file_bytes(),
            final(self).pending() == old(self).pending(),
            final(self).dirty_writes() == Seq::<Change>::empty(),
            final(self).next() == opened_next(old(self).file_bytes()),
            final(self).seen() == set![META_PAGE_ID],
    {
        self.cache.clear();
        let size: usize = self.file.contents().len();
        self.next_page_id = (size / PAGE_SIZE) as u64;
        proof {
            assert(self.pages() =~= file_pages(old(self).file_bytes()));
            assert(self.seen() =~= Set::empty());
            assert(writes_of(self.cache@) =~= Seq::empty());
        }
        let ghost b = self.file.bytes();
        match self.read_metadata() {
            Ok(metadata) => {
                if metadata.is_valid() {
                    self.next_page_id = metadata.last_page_id + 1;
                    assert(self.pages() =~= file_pages(b));
                }
            },
            Err(_) => {},
        }
        assert(self.seen() =~= set![META_PAGE_ID]);
    }

    /// What the file holds once the pending changes are carried out.
    pub fn contents(&self) -> (b: &Vec<u8>)
        ensures
            b@ == self.file_bytes(),
    {
        self.file.contents()
    }

    /// Hands the pending changes over to the one who carries them out.
    pub fn take_pending(&mut self) -> (v: Vec<FileOp>)
        requires
            old(self).wf(),
        ensures
            crate::storage::changes(v@) == old(self).pending(),
            final(self).wf(),
            final(self).pages() == old(self).pages(),
            final(self).file_bytes() == old(self).file_bytes(),
            final(self).pending() == Seq::<Change>::empty(),
            final(self).dirty_writes() == old(self).dirty_writes(),
            final(self).next() == old(self).next(),
            final(self).seen() == old(self).seen(),
    {
        let v = self.file.take_pending();
        assert(self.pages() =~= old(self).pages());
        v
    }

    /// Every page is four kilobytes long.
    pub proof fn lemma_page_len(&self)
        ensures
            forall|id: PageId| (#[trigger] self.pages()[id]).len() == PAGE_SIZE,
            self.pages().dom() == Set::<PageId>::full(),
    {
    }
}

} // verus!
