//! How a tree node is laid out in a page.
//!
//! A node page starts with its header, then a table of key infos, then the keys and values, one
//! behind the other, and ends with the table of child page numbers.
use vstd::prelude::*;
use crate::bytes::{
    copy_all, copy_range, enc16, enc64, key_lt, key_order, le16, le64, lemma_enc16, lemma_enc64,
    lemma_key_order, lemma_le_window, push_u16, push_u64, read_u16, read_u64, KeyOrder,
};
use crate::constants::{NodeHeader, NodeType, PageId, HEADER_SIZE, PAGE_SIZE};
use crate::entries::{
    has_key, lemma_has_key, lemma_rank_is, lemma_total_add, lemma_total_insert, lemma_total_member,
    lemma_total_remove, lemma_total_take, lemma_total_update, pairs, rank, size, sorted, total,
    with_entry, without_key, Entry,
};
use crate::error::{KvdbError, Result};
use crate::page::Page;

verus! {

/// Key metadata within a B-tree node page.
#[derive(Debug, Clone, Copy)]
pub struct KeyInfo {
    pub key_offset: u16,
    pub key_len: u16,
    pub value_offset: u16,
    pub value_len: u16,
}

/// Size of an encoded `KeyInfo`.
pub const KEY_INFO_SIZE: usize = 8;

/// The most keys that a node holds.
pub const MAX_KEYS: u16 = 64;

/// Where the keys and values of a node begin.
pub const DATA_START_OFFSET: usize = HEADER_SIZE + KEY_INFO_SIZE * 64;

/// Where the child page numbers of a node begin.
pub const CHILDREN_OFFSET: usize = PAGE_SIZE - 8 * 65;

impl KeyInfo {
    /// The bytes of the record.
    pub open spec fn encoded(self) -> Seq<u8> {
        enc16(self.key_offset) + enc16(self.key_len) + enc16(self.value_offset) + enc16(
            self.value_len,
        )
    }

    /// One past the last byte of the value.
    pub open spec fn end(self) -> int {
        self.value_offset + self.value_len
    }
}

/// The number of keys that a node page says it holds.
pub open spec fn num_keys(p: Seq<u8>) -> int {
    le16(p, 1) as int
}

/// The kind that a node page says it is.
pub open spec fn node_kind(p: Seq<u8>) -> NodeType {
    NodeType::of_code(p[0])
}

/// The `i`-th key info of a node page.
pub open spec fn info(p: Seq<u8>, i: int) -> KeyInfo {
    KeyInfo {
        key_offset: le16(p, HEADER_SIZE + 8 * i),
        key_len: le16(p, HEADER_SIZE + 8 * i + 2),
        value_offset: le16(p, HEADER_SIZE + 8 * i + 4),
        value_len: le16(p, HEADER_SIZE + 8 * i + 6),
    }
}

/// The key that a key info points at.
pub open spec fn key_of(p: Seq<u8>, k: KeyInfo) -> Seq<u8> {
    p.subrange(k.key_offset as int, k.key_offset + k.key_len)
}

/// The value that a key info points at.
pub open spec fn value_of(p: Seq<u8>, k: KeyInfo) -> Seq<u8> {
    p.subrange(k.value_offset as int, k.end())
}

/// The `i`-th pair of a node page.
pub open spec fn entry_at(p: Seq<u8>, i: int) -> Entry {
    (key_of(p, info(p, i)), value_of(p, info(p, i)))
}

/// The pairs of a node page, in the order of the page. In an internal node the values are empty.
pub open spec fn entries_of(p: Seq<u8>) -> Seq<Entry> {
    Seq::new(num_keys(p) as nat, |i: int| entry_at(p, i))
}

/// The `i`-th child page number of a node page.
pub open spec fn child_at(p: Seq<u8>, i: int) -> PageId {
    le64(p, CHILDREN_OFFSET + 8 * i)
}

/// The key and the value lie in the page.
pub open spec fn in_page(k: KeyInfo) -> bool {
    k.key_offset + k.key_len <= PAGE_SIZE && k.end() <= PAGE_SIZE
}

/// The page can be read as a node.
pub open spec fn readable(p: Seq<u8>) -> bool {
    &&& p.len() == PAGE_SIZE
    &&& NodeType::is_code(p[0])
    &&& num_keys(p) <= MAX_KEYS
    &&& forall|i: int| 0 <= i < num_keys(p) ==> in_page(#[trigger] info(p, i))
}

/// One past the last byte that the pairs take up when they lie one behind the other.
pub open spec fn data_end(s: Seq<Entry>) -> int {
    DATA_START_OFFSET + total(s)
}

/// Each key lies before its value, both between the key infos and the end of the data.
pub open spec fn placed(k: KeyInfo, end: int) -> bool {
    DATA_START_OFFSET <= k.key_offset && k.key_offset + k.key_len <= k.value_offset && k.end()
        <= end
}

/// A node page without gaps: the keys and values fill the space up to the end of the data.
pub open spec fn compact(p: Seq<u8>) -> bool {
    &&& readable(p)
    &&& data_end(entries_of(p)) <= PAGE_SIZE
    &&& forall|i: int|
        0 <= i < num_keys(p) ==> placed(#[trigger] info(p, i), data_end(entries_of(p)))
    &&& num_keys(p) > 0 ==> exists|i: int|
        0 <= i < num_keys(p) && (#[trigger] info(p, i)).end() == data_end(entries_of(p))
}

/// The bytes from `lo` to `hi` are the same in both pages.
pub open spec fn same_bytes(p: Seq<u8>, q: Seq<u8>, lo: int, hi: int) -> bool {
    forall|x: int| #![trigger p[x]] #![trigger q[x]] lo <= x < hi ==> p[x] == q[x]
}

/// Equal bytes give equal key infos.
proof fn lemma_info_window(p: Seq<u8>, i: int, q: Seq<u8>, j: int)
    requires
        p.len() == PAGE_SIZE,
        q.len() == PAGE_SIZE,
        0 <= i < MAX_KEYS,
        0 <= j < MAX_KEYS,
        forall|x: int|
            0 <= x < 8 ==> #[trigger] p[HEADER_SIZE + 8 * i + x] == q[HEADER_SIZE + 8 * j + x],
    ensures
        info(p, i) == info(q, j),
{
    reveal(le16);
    let a = HEADER_SIZE + 8 * i;
    let b = HEADER_SIZE + 8 * j;
    assert(p[a + 0] == q[b + 0] && p[a + 1] == q[b + 1] && p[a + 2] == q[b + 2] && p[a + 3] == q[b
        + 3] && p[a + 4] == q[b + 4] && p[a + 5] == q[b + 5] && p[a + 6] == q[b + 6] && p[a + 7]
        == q[b + 7]);
}

/// Pages that agree up to the data have the same header and the same key infos.
pub proof fn lemma_same_infos(p: Seq<u8>, q: Seq<u8>)
    requires
        p.len() == PAGE_SIZE,
        q.len() == PAGE_SIZE,
        same_bytes(p, q, HEADER_SIZE as int, DATA_START_OFFSET as int),
    ensures
        forall|i: int| 0 <= i < MAX_KEYS ==> #[trigger] info(q, i) == info(p, i),
        same_bytes(p, q, 0, HEADER_SIZE as int) ==> NodeHeader::decoded(q)
            == NodeHeader::decoded(p) && num_keys(q) == num_keys(p) && q[0] == p[0],
{
    reveal(le16);
    assert forall|i: int| 0 <= i < MAX_KEYS implies #[trigger] info(q, i) == info(p, i) by {
        lemma_info_window(q, i, p, i);
    }
    if same_bytes(p, q, 0, HEADER_SIZE as int) {
        reveal(le16);
        assert(p[0] == q[0] && p[1] == q[1] && p[2] == q[2] && p[3] == q[3] && p[4] == q[4]);
    }
}

/// Pages that agree from the children on have the same children.
pub proof fn lemma_same_children(p: Seq<u8>, q: Seq<u8>)
    requires
        p.len() == PAGE_SIZE,
        q.len() == PAGE_SIZE,
        same_bytes(p, q, CHILDREN_OFFSET as int, PAGE_SIZE as int),
    ensures
        forall|i: int| 0 <= i <= MAX_KEYS ==> #[trigger] child_at(q, i) == child_at(p, i),
{
    assert forall|i: int| 0 <= i <= MAX_KEYS implies #[trigger] child_at(q, i) == child_at(
        p,
        i,
    ) by {
        assert forall|j: int| 0 <= j < 8 implies #[trigger] q[CHILDREN_OFFSET + 8 * i + j]
            == p[CHILDREN_OFFSET + 8 * i + j] by {}
        lemma_le_window(q, CHILDREN_OFFSET + 8 * i, p, CHILDREN_OFFSET + 8 * i, 8);
    }
}

/// Helper to read a NodeHeader from a page.
pub fn read_header(page: &Page) -> (h: NodeHeader)
    requires
        NodeType::is_code(page.data@[0]),
    ensures
        h == NodeHeader::decoded(page.data@),
        h.num_keys == num_keys(page.data@),
        h.node_type == node_kind(page.data@),
{
    NodeHeader::from_bytes(page.bytes())
}

/// Helper to write a NodeHeader to a page.
pub fn write_header(page: &mut Page, header: &NodeHeader)
    ensures
        final(page).id == old(page).id,
        final(page).is_dirty,
        NodeHeader::decoded(final(page).data@) == *header,
        NodeType::is_code(final(page).data@[0]),
        same_bytes(old(page).data@, final(page).data@, HEADER_SIZE as int, PAGE_SIZE as int),
        forall|i: int|
            0 <= i < MAX_KEYS ==> #[trigger] info(final(page).data@, i) == info(
                old(page).data@,
                i,
            ),
{
    let b = header.as_bytes();
    page.write(0, b.as_slice());
    proof {
        assert(page.data@.subrange(0, HEADER_SIZE as int) =~= header.encoded());
        header.lemma_decoded(page.data@);
        lemma_same_infos(old(page).data@, page.data@);
    }
}

/// Reads the key info at `index`.
pub fn read_key_info(page: &Page, index: u16) -> (k: KeyInfo)
    requires
        index < MAX_KEYS,
    ensures
        k == info(page.data@, index as int),
{
    let o: usize = HEADER_SIZE + index as usize * KEY_INFO_SIZE;
    let s = page.bytes();
    KeyInfo {
        key_offset: read_u16(s, o),
        key_len: read_u16(s, o + 2),
        value_offset: read_u16(s, o + 4),
        value_len: read_u16(s, o + 6),
    }
}

/// Writes the key info at `index`.
pub fn write_key_info(page: &mut Page, index: u16, ki: &KeyInfo)
    requires
        index < MAX_KEYS,
    ensures
        final(page).id == old(page).id,
        final(page).is_dirty,
        same_bytes(old(page).data@, final(page).data@, 0, HEADER_SIZE as int),
        same_bytes(old(page).data@, final(page).data@, DATA_START_OFFSET as int, PAGE_SIZE as int),
        NodeHeader::decoded(final(page).data@) == NodeHeader::decoded(old(page).data@),
        forall|i: int|
            0 <= i < MAX_KEYS ==> #[trigger] info(final(page).data@, i) == (if i == index {
                *ki
            } else {
                info(old(page).data@, i)
            }),
{
    let o: usize = HEADER_SIZE + index as usize * KEY_INFO_SIZE;
    let mut b: Vec<u8> = Vec::with_capacity(KEY_INFO_SIZE);
    push_u16(&mut b, ki.key_offset);
    push_u16(&mut b, ki.key_len);
    push_u16(&mut b, ki.value_offset);
    push_u16(&mut b, ki.value_len);
    page.write(o, b.as_slice());
    proof {
        let p = old(page).data@;
        let q = page.data@;
        assert forall|i: int| 0 <= i < MAX_KEYS implies #[trigger] info(q, i) == (if i == index {
            *ki
        } else {
            info(p, i)
        }) by {
            if i == index {
                lemma_enc16(ki.key_offset);
                lemma_enc16(ki.key_len);
                lemma_enc16(ki.value_offset);
                lemma_enc16(ki.value_len);
                lemma_le_window(q, o as int, enc16(ki.key_offset), 0, 2);
                lemma_le_window(q, o + 2, enc16(ki.key_len), 0, 2);
                lemma_le_window(q, o + 4, enc16(ki.value_offset), 0, 2);
                lemma_le_window(q, o + 6, enc16(ki.value_len), 0, 2);
            } else {
                lemma_info_window(q, i, p, i);
            }
        }
        reveal(le16);
        assert(p[0] == q[0] && p[1] == q[1] && p[2] == q[2] && p[3] == q[3] && p[4] == q[4]);
    }
}

/// One past the last byte in use, given the number of keys.
pub fn get_next_data_offset(page: &Page, n: u16) -> (r: usize)
    requires
        n <= MAX_KEYS,
    ensures
        r >= DATA_START_OFFSET,
        forall|i: int| 0 <= i < n ==> (#[trigger] info(page.data@, i)).end() <= r,
        r == DATA_START_OFFSET || exists|i: int|
            0 <= i < n && (#[trigger] info(page.data@, i)).end() == r,
{
    let mut max_end: usize = DATA_START_OFFSET;
    let mut i: u16 = 0;
    while i < n
        invariant
            i <= n <= MAX_KEYS,
            max_end >= DATA_START_OFFSET,
            forall|j: int| 0 <= j < i ==> (#[trigger] info(page.data@, j)).end() <= max_end,
            max_end == DATA_START_OFFSET || exists|j: int|
                0 <= j < i && (#[trigger] info(page.data@, j)).end() == max_end,
        decreases n - i,
    {
        let ki = read_key_info(page, i);
        let end: usize = ki.value_offset as usize + ki.value_len as usize;
        if end > max_end {
            max_end = end;
            assert(info(page.data@, i as int).end() == max_end);
        }
        i += 1;
    }
    max_end
}

/// In a compact page the space in use ends where the pairs end.
pub proof fn lemma_next_data_offset(p: Seq<u8>, r: int)
    requires
        compact(p),
        r >= DATA_START_OFFSET,
        forall|i: int| 0 <= i < num_keys(p) ==> (#[trigger] info(p, i)).end() <= r,
        r == DATA_START_OFFSET || exists|i: int|
            0 <= i < num_keys(p) && (#[trigger] info(p, i)).end() == r,
    ensures
        r == data_end(entries_of(p)),
{
    let s = entries_of(p);
    lemma_total_add(s, Seq::empty());
    if num_keys(p) == 0 {
        assert(s =~= Seq::<Entry>::empty());
    }
}

/// Where the child page number at `index` lies in the page.
pub fn child_page_offset(index: u16) -> (o: usize)
    requires
        index <= MAX_KEYS,
    ensures
        o == CHILDREN_OFFSET + 8 * index,
        o + 8 <= PAGE_SIZE,
{
    CHILDREN_OFFSET + index as usize * 8
}

/// Reads the child page number at `index`.
pub fn get_child_page_id(page: &Page, index: u16) -> (id: PageId)
    requires
        index <= MAX_KEYS,
    ensures
        id == child_at(page.data@, index as int),
{
    let off = child_page_offset(index);
    read_u64(page.bytes(), off)
}

/// Writes the child page number at `index`.
pub fn set_child_page_id(page: &mut Page, index: u16, page_id: PageId)
    requires
        index <= MAX_KEYS,
    ensures
        final(page).id == old(page).id,
        final(page).is_dirty,
        same_bytes(old(page).data@, final(page).data@, 0, CHILDREN_OFFSET as int),
        forall|i: int|
            0 <= i <= MAX_KEYS ==> #[trigger] child_at(final(page).data@, i) == (if i == index {
                page_id
            } else {
                child_at(old(page).data@, i)
            }),
{
    let off = child_page_offset(index);
    let mut b: Vec<u8> = Vec::with_capacity(8);
    push_u64(&mut b, page_id);
    assert(b@ =~= enc64(page_id));
    proof {
        lemma_enc64(page_id);
    }
    page.write(off, b.as_slice());
    proof {
        let p = old(page).data@;
        let q = page.data@;
        assert forall|i: int| 0 <= i <= MAX_KEYS implies #[trigger] child_at(q, i) == (if i
            == index {
            page_id
        } else {
            child_at(p, i)
        }) by {
            if i == index {
                assert forall|j: int| 0 <= j < 8 implies #[trigger] q[off + j] == enc64(page_id)[0
                    + j] by {}
                lemma_le_window(q, off as int, enc64(page_id), 0, 8);
            } else {
                let a = CHILDREN_OFFSET + 8 * i;
                assert forall|j: int| 0 <= j < 8 implies #[trigger] q[a + j] == p[a + j] by {}
                lemma_le_window(q, a, p, a, 8);
            }
        }
    }
}

/// Copies the key at `index` out of the page.
pub fn get_key_from_page(page: &Page, index: u16) -> (k: Vec<u8>)
    requires
        readable(page.data@),
        index < num_keys(page.data@),
    ensures
        k@ == entries_of(page.data@)[index as int].0,
        k@ == entry_at(page.data@, index as int).0,
{
    let ki = read_key_info(page, index);
    assert(in_page(info(page.data@, index as int)));
    copy_range(page.bytes(), ki.key_offset as usize, ki.key_offset as usize + ki.key_len as usize)
}

/// Copies the value at `index` out of the page.
pub fn get_value_from_page(page: &Page, index: u16) -> (v: Vec<u8>)
    requires
        readable(page.data@),
        index < num_keys(page.data@),
    ensures
        v@ == entries_of(page.data@)[index as int].1,
        v@ == entry_at(page.data@, index as int).1,
{
    let ki = read_key_info(page, index);
    assert(in_page(info(page.data@, index as int)));
    copy_range(
        page.bytes(),
        ki.value_offset as usize,
        ki.value_offset as usize + ki.value_len as usize,
    )
}

/// Where a search in a node ended.
pub struct SearchResult {
    pub found: bool,
    pub index: u16,
}

/// Searches the keys of a node page.
pub fn binary_search(page: &Page, n: u16, target: &[u8]) -> (r: SearchResult)
    requires
        readable(page.data@),
        n == num_keys(page.data@),
    ensures
        r.index <= n,
        r.found ==> r.index < n && entries_of(page.data@)[r.index as int].0 == target@,
        sorted(entries_of(page.data@)) ==> r.index == rank(entries_of(page.data@), target@)
            && r.found == has_key(entries_of(page.data@), target@),
{
    let ghost s = entries_of(page.data@);
    let mut low: i32 = 0;
    let mut high: i32 = n as i32 - 1;
    while low <= high
        invariant
            readable(page.data@),
            n == num_keys(page.data@),
            s == entries_of(page.data@),
            0 <= low <= n,
            -1 <= high < n,
            low <= high + 1,
            sorted(s) ==> forall|j: int| 0 <= j < low ==> key_lt(#[trigger] s[j].0, target@),
            sorted(s) ==> forall|j: int| high < j < n ==> key_lt(target@, #[trigger] s[j].0),
        decreases high - low + 1,
    {
        let mid: i32 = low + (high - low) / 2;
        let key = get_key_from_page(page, mid as u16);
        match key_order(key.as_slice(), target) {
            KeyOrder::Equal => {
                proof {
                    if sorted(s) {
                        lemma_has_key(s, target@);
                        assert(s[mid as int].0 == target@);
                    }
                }
                return SearchResult { found: true, index: mid as u16 };
            },
            KeyOrder::Less => {
                proof {
                    lemma_key_order();
                    if sorted(s) {
                        assert forall|j: int| 0 <= j < mid + 1 implies key_lt(
                            #[trigger] s[j].0,
                            target@,
                        ) by {
                            if j < mid {
                                assert(key_lt(s[j].0, s[mid as int].0));
                            }
                        }
                    }
                }
                low = mid + 1;
            },
            KeyOrder::Greater => {
                proof {
                    lemma_key_order();
                    if sorted(s) {
                        assert forall|j: int| mid - 1 < j < n implies key_lt(
                            target@,
                            #[trigger] s[j].0,
                        ) by {
                            if j > mid {
                                assert(key_lt(s[mid as int].0, s[j].0));
                            }
                        }
                    }
                }
                high = mid - 1;
            },
        }
    }
    proof {
        if sorted(s) {
            lemma_key_order();
            if low < n {
                assert(key_lt(target@, s[low as int].0));
            }
            lemma_rank_is(s, target@, low as int);
        }
    }
    SearchResult { found: false, index: low as u16 }
}

/// The key info says that the pair lies at `o`, the value right behind the key.
pub open spec fn points_at(k: KeyInfo, o: int, e: Entry) -> bool {
    k.key_offset == o && k.key_len == e.0.len() && k.value_offset == o + e.0.len() && k.value_len
        == e.1.len()
}

/// The first key infos of the page describe the pairs, which lie one behind the other.
pub open spec fn laid_out(p: Seq<u8>, s: Seq<Entry>) -> bool {
    forall|i: int|
        0 <= i < s.len() ==> points_at(
            #[trigger] info(p, i),
            DATA_START_OFFSET + total(s.take(i)),
            s[i],
        ) && entry_at(p, i) == s[i]
}

/// A page in which the pairs are laid out is compact and holds these pairs.
pub proof fn lemma_laid_out(p: Seq<u8>, s: Seq<Entry>)
    requires
        p.len() == PAGE_SIZE,
        NodeType::is_code(p[0]),
        num_keys(p) == s.len(),
        s.len() <= MAX_KEYS,
        data_end(s) <= PAGE_SIZE,
        laid_out(p, s),
    ensures
        entries_of(p) == s,
        compact(p),
{
    assert forall|i: int| 0 <= i < s.len() implies entries_of(p)[i] == s[i] by {
        assert(points_at(info(p, i), DATA_START_OFFSET + total(s.take(i)), s[i]));
    }
    assert(entries_of(p) =~= s);
    assert forall|i: int| 0 <= i < num_keys(p) implies in_page(#[trigger] info(p, i)) && placed(
        info(p, i),
        data_end(s),
    ) by {
        lemma_total_take(s, i);
    }
    if s.len() > 0 {
        let i = s.len() - 1;
        lemma_total_take(s, i);
        assert(info(p, i).end() == data_end(s));
    }
}

/// Bytes that a key info does not point at do not matter to its pair.
proof fn lemma_entry_stable(p: Seq<u8>, q: Seq<u8>, k: KeyInfo, hi: int)
    requires
        p.len() == PAGE_SIZE,
        q.len() == PAGE_SIZE,
        placed(k, hi),
        hi <= PAGE_SIZE,
        same_bytes(p, q, DATA_START_OFFSET as int, hi),
    ensures
        key_of(q, k) == key_of(p, k),
        value_of(q, k) == value_of(p, k),
{
    assert(key_of(q, k) =~= key_of(p, k));
    assert(value_of(q, k) =~= value_of(p, k));
}

/// Copies the pairs out of a node page.
pub fn collect_page(page: &Page, n: u16) -> (v: Vec<(Vec<u8>, Vec<u8>)>)
    requires
        readable(page.data@),
        n == num_keys(page.data@),
    ensures
        pairs(v@) == entries_of(page.data@),
{
    let mut v: Vec<(Vec<u8>, Vec<u8>)> = Vec::with_capacity(n as usize);
    let mut i: u16 = 0;
    while i < n
        invariant
            readable(page.data@),
            n == num_keys(page.data@),
            i <= n,
            pairs(v@) == entries_of(page.data@).take(i as int),
        decreases n - i,
    {
        let ghost before = v@;
        v.push((get_key_from_page(page, i), get_value_from_page(page, i)));
        i += 1;
        assert(pairs(v@) =~= pairs(before).push(entries_of(page.data@)[i - 1]));
        assert(pairs(v@) =~= entries_of(page.data@).take(i as int));
    }
    assert(entries_of(page.data@).take(n as int) =~= entries_of(page.data@));
    v
}

/// Lays out the pairs from `start` to `end` of the vector, and says where they end.
pub fn write_entries(
    page: &mut Page,
    v: &Vec<(Vec<u8>, Vec<u8>)>,
    start: usize,
    end: usize,
) -> (offset: usize)
    requires
        start <= end <= v@.len(),
        end - start <= MAX_KEYS,
        data_end(pairs(v@).subrange(start as int, end as int)) <= PAGE_SIZE,
    ensures
        final(page).id == old(page).id,
        end > start ==> final(page).is_dirty,
        old(page).is_dirty ==> final(page).is_dirty,
        offset == data_end(pairs(v@).subrange(start as int, end as int)),
        laid_out(final(page).data@, pairs(v@).subrange(start as int, end as int)),
        NodeHeader::decoded(final(page).data@) == NodeHeader::decoded(old(page).data@),
        same_bytes(old(page).data@, final(page).data@, 0, HEADER_SIZE as int),
        same_bytes(old(page).data@, final(page).data@, offset as int, PAGE_SIZE as int),
{
    let ghost s = pairs(v@).subrange(start as int, end as int);
    let mut offset: usize = DATA_START_OFFSET;
    let mut i: usize = 0;
    assert(s.take(0) =~= Seq::<Entry>::empty());
    while i < end - start
        invariant
            start <= end <= v@.len(),
            end - start <= MAX_KEYS,
            s == pairs(v@).subrange(start as int, end as int),
            data_end(s) <= PAGE_SIZE,
            i <= end - start,
            offset == DATA_START_OFFSET + total(s.take(i as int)),
            page.id == old(page).id,
            i > 0 ==> page.is_dirty,
            old(page).is_dirty ==> page.is_dirty,
            laid_out(page.data@, s.take(i as int)),
            NodeHeader::decoded(page.data@) == NodeHeader::decoded(old(page).data@),
            same_bytes(old(page).data@, page.data@, 0, HEADER_SIZE as int),
            same_bytes(old(page).data@, page.data@, offset as int, PAGE_SIZE as int),
        decreases end - start - i,
    {
        let ghost p0 = page.data@;
        let ghost e = s[i as int];
        let k = v[start + i].0.as_slice();
        let w = v[start + i].1.as_slice();
        proof {
            lemma_total_take(s, i as int);
            assert(e == (k@, w@));
        }
        let klen: usize = k.len();
        let wlen: usize = w.len();
        page.write(offset, k);
        page.write(offset + klen, w);
        let ghost p1 = page.data@;
        let ki = KeyInfo {
            key_offset: offset as u16,
            key_len: klen as u16,
            value_offset: (offset + klen) as u16,
            value_len: wlen as u16,
        };
        write_key_info(page, i as u16, &ki);
        let ghost p2 = page.data@;
        proof {
            let a = s.take(i as int);
            let b = s.take(i + 1);
            lemma_same_infos(p0, p1);
            assert(key_of(p2, ki) =~= k@);
            assert(value_of(p2, ki) =~= w@);
            assert forall|j: int| 0 <= j < b.len() implies points_at(
                #[trigger] info(p2, j),
                DATA_START_OFFSET + total(b.take(j)),
                b[j],
            ) && entry_at(p2, j) == b[j] by {
                assert(b.take(j) =~= s.take(j));
                if j < i {
                    assert(a.take(j) =~= s.take(j));
                    assert(a[j] == b[j]);
                    assert(info(p2, j) == info(p0, j));
                    assert(points_at(info(p0, j), DATA_START_OFFSET + total(a.take(j)), a[j]));
                    lemma_total_take(a, j);
                    lemma_total_add(a.take(j), Seq::empty());
                    lemma_entry_stable(p0, p2, info(p0, j), offset as int);
                }
            }
            assert(p0[0] == p1[0] && p0[1] == p1[1] && p0[2] == p1[2] && p0[3] == p1[3] && p0[4]
                == p1[4]);
        }
        offset += klen + wlen;
        i += 1;
    }
    assert(s.take(end - start) =~= s);
    offset
}

/// Makes the page a node of the kind that holds the pairs from `start` to `end` of the vector.
pub fn write_node(
    page: &mut Page,
    kind: NodeType,
    v: &Vec<(Vec<u8>, Vec<u8>)>,
    start: usize,
    end: usize,
)
    requires
        start <= end <= v@.len(),
        end - start <= MAX_KEYS,
        data_end(pairs(v@).subrange(start as int, end as int)) <= PAGE_SIZE,
    ensures
        final(page).id == old(page).id,
        final(page).is_dirty,
        compact(final(page).data@),
        node_kind(final(page).data@) == kind,
        entries_of(final(page).data@) == pairs(v@).subrange(start as int, end as int),
{
    page.zero(DATA_START_OFFSET, PAGE_SIZE);
    let mut header = NodeHeader::new(kind);
    header.num_keys = (end - start) as u16;
    write_header(page, &header);
    let ghost p = page.data@;
    let _ = write_entries(page, v, start, end);
    proof {
        let s = pairs(v@).subrange(start as int, end as int);
        assert(page.data@[0] == p[0]);
        assert(num_keys(page.data@) == NodeHeader::decoded(page.data@).num_keys);
        assert(node_kind(page.data@) == NodeHeader::decoded(page.data@).node_type);
        lemma_laid_out(page.data@, s);
    }
}

/// There is room in the leaf for one more pair.
pub open spec fn leaf_room(s: Seq<Entry>, k: Seq<u8>, v: Seq<u8>) -> bool {
    s.len() < MAX_KEYS && data_end(s) + k.len() + v.len() <= CHILDREN_OFFSET
}

/// There is room in the leaf for the pair: as one more, or with the value of a key that is there
/// already in place of the old one.
pub open spec fn takes_in(s: Seq<Entry>, k: Seq<u8>, v: Seq<u8>) -> bool {
    if has_key(s, k) {
        data_end(with_entry(s, k, v)) <= PAGE_SIZE
    } else {
        leaf_room(s, k, v)
    }
}

/// What lies behind the pairs and behind the place where child page numbers would begin.
pub open spec fn beyond(s: Seq<Entry>) -> int {
    if data_end(s) < CHILDREN_OFFSET {
        CHILDREN_OFFSET as int
    } else {
        data_end(s)
    }
}

/// Moves the key infos from `index` on up by one place.
fn shift_key_infos(page: &mut Page, index: u16, n: u16)
    requires
        index <= n < MAX_KEYS,
    ensures
        final(page).id == old(page).id,
        old(page).is_dirty ==> final(page).is_dirty,
        NodeHeader::decoded(final(page).data@) == NodeHeader::decoded(old(page).data@),
        same_bytes(old(page).data@, final(page).data@, 0, HEADER_SIZE as int),
        same_bytes(old(page).data@, final(page).data@, DATA_START_OFFSET as int, PAGE_SIZE as int),
        forall|j: int|
            0 <= j < index ==> #[trigger] info(final(page).data@, j) == info(old(page).data@, j),
        forall|j: int|
            index < j <= n ==> #[trigger] info(final(page).data@, j) == info(
                old(page).data@,
                j - 1,
            ),
{
    let mut i: u16 = n;
    while i > index
        invariant
            index <= i <= n < MAX_KEYS,
            page.id == old(page).id,
            old(page).is_dirty ==> page.is_dirty,
            NodeHeader::decoded(page.data@) == NodeHeader::decoded(old(page).data@),
            same_bytes(old(page).data@, page.data@, 0, HEADER_SIZE as int),
            same_bytes(old(page).data@, page.data@, DATA_START_OFFSET as int, PAGE_SIZE as int),
            forall|j: int|
                0 <= j <= i ==> #[trigger] info(page.data@, j) == info(old(page).data@, j),
            forall|j: int|
                i < j <= n ==> #[trigger] info(page.data@, j) == info(old(page).data@, j - 1),
        decreases i,
    {
        let ki = read_key_info(page, i - 1);
        write_key_info(page, i, &ki);
        i -= 1;
    }
}

/// Insert a key-value pair into a leaf node page; a key that is there already gets the value.
/// Returns an error if the node is full.
pub fn leaf_insert(page: &mut Page, key: &[u8], value: &[u8]) -> (r: Result<()>)
    requires
        compact(old(page).data@),
        node_kind(old(page).data@) == NodeType::Leaf,
        sorted(entries_of(old(page).data@)),
        key@.len() + value@.len() <= usize::MAX - PAGE_SIZE,
    ensures
        final(page).id == old(page).id,
        match r {
            Ok(_) => {
                let s = entries_of(old(page).data@);
                &&& takes_in(s, key@, value@)
                &&& final(page).is_dirty
                &&& compact(final(page).data@)
                &&& node_kind(final(page).data@) == NodeType::Leaf
                &&& entries_of(final(page).data@) == with_entry(s, key@, value@)
                &&& same_bytes(
                    old(page).data@,
                    final(page).data@,
                    beyond(with_entry(s, key@, value@)),
                    PAGE_SIZE as int,
                )
            },
            Err(e) => {
                &&& !takes_in(entries_of(old(page).data@), key@, value@)
                &&& e is NodeFull
                &&& *final(page) == *old(page)
            },
        },
{
    let ghost p0 = page.data@;
    let mut header = read_header(page);
    let n = header.num_keys;
    let search = binary_search(page, n, key);
    let data_offset = get_next_data_offset(page, n);
    let klen: usize = key.len();
    let vlen: usize = value.len();
    proof {
        lemma_next_data_offset(p0, data_offset as int);
    }
    if search.found {
        let old_len: usize = read_key_info(page, search.index).value_len as usize;
        proof {
            let s = entries_of(p0);
            assert(s[search.index as int] == entry_at(p0, search.index as int));
            assert(in_page(info(p0, search.index as int)));
            lemma_total_update(s, search.index as int, (key@, value@));
            lemma_total_member(s, search.index as int);
        }
        if data_offset - old_len + vlen > PAGE_SIZE {
            return Err(KvdbError::NodeFull);
        }
        return leaf_update(page, &header, search.index, key, value);
    }
    if n >= MAX_KEYS {
        return Err(KvdbError::NodeFull);
    }
    if data_offset + (klen + vlen) > CHILDREN_OFFSET {
        return Err(KvdbError::NodeFull);
    }
    shift_key_infos(page, search.index, n);
    let ghost p1 = page.data@;
    page.write(data_offset, key);
    page.write(data_offset + klen, value);
    let ghost p2 = page.data@;
    let ki = KeyInfo {
        key_offset: data_offset as u16,
        key_len: klen as u16,
        value_offset: (data_offset + klen) as u16,
        value_len: vlen as u16,
    };
    write_key_info(page, search.index, &ki);
    header.num_keys = n + 1;
    write_header(page, &header);
    proof {
        let q = page.data@;
        let x = search.index as int;
        lemma_same_infos(p1, p2);
        assert(num_keys(q) == n + 1);
        assert(key_of(q, ki) =~= key@);
        assert(value_of(q, ki) =~= value@);
        lemma_inserted(p0, q, x, ki, (key@, value@));
        lemma_total_insert(entries_of(p0), x, (key@, value@));
    }
    Ok(())
}

/// The page `q` is the page `p` with one more key info at `x`, whose pair lies behind the others.
proof fn lemma_inserted(p: Seq<u8>, q: Seq<u8>, x: int, ki: KeyInfo, e: Entry)
    requires
        compact(p),
        q.len() == PAGE_SIZE,
        NodeType::is_code(q[0]),
        0 <= x <= num_keys(p) < MAX_KEYS,
        num_keys(q) == num_keys(p) + 1,
        forall|j: int| 0 <= j < x ==> #[trigger] info(q, j) == info(p, j),
        info(q, x) == ki,
        forall|j: int| x < j <= num_keys(p) ==> #[trigger] info(q, j) == info(p, j - 1),
        points_at(ki, data_end(entries_of(p)), e),
        data_end(entries_of(p)) + size(e) <= PAGE_SIZE,
        same_bytes(p, q, DATA_START_OFFSET as int, data_end(entries_of(p))),
        key_of(q, ki) == e.0,
        value_of(q, ki) == e.1,
    ensures
        entries_of(q) == entries_of(p).insert(x, e),
        compact(q),
{
    let s = entries_of(p);
    let t = s.insert(x, e);
    let end = data_end(s);
    lemma_total_insert(s, x, e);
    assert forall|j: int| 0 <= j < num_keys(q) implies entry_at(q, j) == t[j] && placed(
        #[trigger] info(q, j),
        data_end(t),
    ) && in_page(info(q, j)) by {
        if j < x {
            assert(placed(info(p, j), end));
            lemma_entry_stable(p, q, info(p, j), end);
            assert(s[j] == entry_at(p, j));
        } else if j > x {
            assert(placed(info(p, j - 1), end));
            lemma_entry_stable(p, q, info(p, j - 1), end);
            assert(s[j - 1] == entry_at(p, j - 1));
        } else {
            lemma_total_add(s, Seq::empty());
        }
    }
    assert(entries_of(q) =~= t);
    assert(info(q, x).end() == data_end(t));
}

/// Update an existing key in a leaf node, repacking data.
pub fn leaf_update(
    page: &mut Page,
    header: &NodeHeader,
    index: u16,
    key: &[u8],
    value: &[u8],
) -> (r: Result<()>)
    requires
        readable(old(page).data@),
        *header == NodeHeader::decoded(old(page).data@),
        index < num_keys(old(page).data@),
        data_end(entries_of(old(page).data@).update(index as int, (key@, value@))) <= PAGE_SIZE,
    ensures
        r is Ok,
        final(page).id == old(page).id,
        final(page).is_dirty,
        compact(final(page).data@),
        node_kind(final(page).data@) == node_kind(old(page).data@),
        entries_of(final(page).data@) == entries_of(old(page).data@).update(
            index as int,
            (key@, value@),
        ),
        ({
            let w = entries_of(old(page).data@).update(index as int, (key@, value@));
            &&& laid_out(final(page).data@, w)
            &&& forall|x: int|
                data_end(w) <= x < CHILDREN_OFFSET ==> #[trigger] final(page).data@[x] == 0
            &&& same_bytes(old(page).data@, final(page).data@, beyond(w), PAGE_SIZE as int)
        }),
{
    let n = header.num_keys;
    let mut v = collect_page(page, n);
    let ghost v0 = v@;
    v.set(index as usize, (copy_all(key), copy_all(value)));
    proof {
        assert(pairs(v@) =~= pairs(v0).update(index as int, (key@, value@)));
        assert(pairs(v@).subrange(0, n as int) =~= pairs(v@));
    }
    let offset = write_entries(page, &v, 0, n as usize);
    if offset < CHILDREN_OFFSET {
        let ghost p1 = page.data@;
        page.zero(offset, CHILDREN_OFFSET);
        proof {
            lemma_laid_out_stable(p1, page.data@, pairs(v@), offset as int);
        }
    }
    let ghost p2 = page.data@;
    write_header(page, header);
    proof {
        lemma_laid_out_stable(p2, page.data@, pairs(v@), offset as int);
        lemma_laid_out(page.data@, pairs(v@));
    }
    Ok(())
}

/// What follows the pairs, and what precedes the key infos, does not matter to them.
proof fn lemma_laid_out_stable(p: Seq<u8>, q: Seq<u8>, s: Seq<Entry>, end: int)
    requires
        p.len() == PAGE_SIZE,
        q.len() == PAGE_SIZE,
        s.len() <= MAX_KEYS,
        end == data_end(s),
        end <= PAGE_SIZE,
        laid_out(p, s),
        same_bytes(p, q, HEADER_SIZE as int, end),
    ensures
        laid_out(q, s),
{
    lemma_total_add(s, Seq::empty());
    lemma_same_infos(p, q);
    assert forall|i: int| 0 <= i < s.len() implies points_at(
        #[trigger] info(q, i),
        DATA_START_OFFSET + total(s.take(i)),
        s[i],
    ) && entry_at(q, i) == s[i] by {
        assert(info(q, i) == info(p, i));
        assert(points_at(info(p, i), DATA_START_OFFSET + total(s.take(i)), s[i]));
        lemma_total_take(s, i);
        lemma_entry_stable(p, q, info(p, i), end);
    }
}

/// Delete a key from a leaf node. Returns the deleted value, or KeyNotFound.
pub fn leaf_delete(page: &mut Page, key: &[u8]) -> (r: Result<Vec<u8>>)
    requires
        compact(old(page).data@),
        node_kind(old(page).data@) == NodeType::Leaf,
        sorted(entries_of(old(page).data@)),
    ensures
        final(page).id == old(page).id,
        match r {
            Ok(v) => {
                let s = entries_of(old(page).data@);
                &&& has_key(s, key@)
                &&& v@ == s[rank(s, key@)].1
                &&& final(page).is_dirty
                &&& compact(final(page).data@)
                &&& node_kind(final(page).data@) == NodeType::Leaf
                &&& entries_of(final(page).data@) == without_key(s, key@)
                &&& laid_out(final(page).data@, without_key(s, key@))
                &&& same_bytes(
                    old(page).data@,
                    final(page).data@,
                    data_end(without_key(s, key@)),
                    PAGE_SIZE as int,
                )
            },
            Err(e) => {
                &&& !has_key(entries_of(old(page).data@), key@)
                &&& e is KeyNotFound
                &&& *final(page) == *old(page)
            },
        },
{
    let ghost s = entries_of(page.data@);
    let mut header = read_header(page);
    let n = header.num_keys;
    let search = binary_search(page, n, key);
    if !search.found {
        return Err(KvdbError::KeyNotFound);
    }
    let deleted_value = get_value_from_page(page, search.index);
    let mut v = collect_page(page, n);
    let ghost v0 = v@;
    let _ = v.remove(search.index as usize);
    proof {
        lemma_total_remove(s, search.index as int);
        lemma_total_member(s, search.index as int);
        assert(pairs(v@) =~= pairs(v0).remove(search.index as int));
        assert(pairs(v@).subrange(0, n - 1) =~= pairs(v@));
    }
    header.num_keys = n - 1;
    let offset = write_entries(page, &v, 0, (n - 1) as usize);
    let ghost p2 = page.data@;
    write_header(page, &header);
    proof {
        lemma_laid_out_stable(p2, page.data@, pairs(v@), offset as int);
        lemma_laid_out(page.data@, pairs(v@));
    }
    Ok(deleted_value)
}

/// The child page numbers of an internal node page: one more than it has keys.
pub open spec fn children_of(p: Seq<u8>) -> Seq<PageId> {
    Seq::new((num_keys(p) + 1) as nat, |i: int| child_at(p, i))
}

/// Copies the child page numbers out of an internal node page.
pub fn collect_children(page: &Page, n: u16) -> (v: Vec<PageId>)
    requires
        n == num_keys(page.data@),
        n <= MAX_KEYS,
    ensures
        v@ == children_of(page.data@),
{
    let mut v: Vec<PageId> = Vec::with_capacity(n as usize + 1);
    let mut i: u16 = 0;
    while i < n + 1
        invariant
            n == num_keys(page.data@),
            n <= MAX_KEYS,
            i <= n + 1,
            v@ == children_of(page.data@).take(i as int),
        decreases n + 1 - i,
    {
        v.push(get_child_page_id(page, i));
        i += 1;
        assert(v@ =~= children_of(page.data@).take(i as int));
    }
    assert(children_of(page.data@).take(n + 1) =~= children_of(page.data@));
    v
}

/// Writes the child page numbers from `start` to `end` of the vector into the page.
pub fn write_children(page: &mut Page, v: &Vec<PageId>, start: usize, end: usize)
    requires
        start <= end <= v@.len(),
        end - start <= MAX_KEYS + 1,
    ensures
        final(page).id == old(page).id,
        old(page).is_dirty ==> final(page).is_dirty,
        same_bytes(old(page).data@, final(page).data@, 0, CHILDREN_OFFSET as int),
        forall|i: int|
            0 <= i < end - start ==> #[trigger] child_at(final(page).data@, i) == v@[start + i],
{
    let mut i: usize = 0;
    while i < end - start
        invariant
            start <= end <= v@.len(),
            end - start <= MAX_KEYS + 1,
            i <= end - start,
            page.id == old(page).id,
            old(page).is_dirty ==> page.is_dirty,
            same_bytes(old(page).data@, page.data@, 0, CHILDREN_OFFSET as int),
            forall|j: int| 0 <= j < i ==> #[trigger] child_at(page.data@, j) == v@[start + j],
        decreases end - start - i,
    {
        set_child_page_id(page, i as u16, v[start + i]);
        i += 1;
    }
}

/// A compact page stays so when bytes behind its data change.
pub proof fn lemma_compact_stable(p: Seq<u8>, q: Seq<u8>, end: int)
    requires
        compact(p),
        q.len() == PAGE_SIZE,
        data_end(entries_of(p)) <= end,
        same_bytes(p, q, 0, end),
    ensures
        compact(q),
        entries_of(q) == entries_of(p),
        node_kind(q) == node_kind(p),
{
    let s = entries_of(p);
    lemma_total_add(s, Seq::empty());
    lemma_same_infos(p, q);
    assert forall|i: int| 0 <= i < num_keys(p) implies entry_at(q, i) == entry_at(p, i)
        && #[trigger] info(q, i) == info(p, i) by {
        assert(placed(info(p, i), data_end(s)));
        lemma_entry_stable(p, q, info(p, i), data_end(s));
    }
    assert(entries_of(q) =~= s);
    if num_keys(p) > 0 {
        let i = choose|i: int|
            0 <= i < num_keys(p) && (#[trigger] info(p, i)).end() == data_end(s);
        assert(info(q, i).end() == data_end(s));
    }
}

/// The children with a new one right behind the place of the new key.
pub open spec fn with_child(c: Seq<PageId>, x: int, id: PageId) -> Seq<PageId> {
    c.insert(x + 1, id)
}

/// Moves the child page numbers behind `x` up by one place.
fn shift_children(page: &mut Page, x: u16, n: u16)
    requires
        x <= n < MAX_KEYS,
    ensures
        final(page).id == old(page).id,
        old(page).is_dirty ==> final(page).is_dirty,
        same_bytes(old(page).data@, final(page).data@, 0, CHILDREN_OFFSET as int),
        forall|j: int|
            0 <= j <= x ==> #[trigger] child_at(final(page).data@, j) == child_at(
                old(page).data@,
                j,
            ),
        forall|j: int|
            x + 1 < j <= n + 1 ==> #[trigger] child_at(final(page).data@, j) == child_at(
                old(page).data@,
                j - 1,
            ),
{
    let mut i: u16 = n;
    while i > x
        invariant
            x <= i <= n < MAX_KEYS,
            page.id == old(page).id,
            old(page).is_dirty ==> page.is_dirty,
            same_bytes(old(page).data@, page.data@, 0, CHILDREN_OFFSET as int),
            forall|j: int|
                0 <= j <= i ==> #[trigger] child_at(page.data@, j) == child_at(old(page).data@, j),
            forall|j: int|
                i + 1 < j <= n + 1 ==> #[trigger] child_at(page.data@, j) == child_at(
                    old(page).data@,
                    j - 1,
                ),
        decreases i,
    {
        let cid = get_child_page_id(page, i);
        set_child_page_id(page, i + 1, cid);
        i -= 1;
    }
}

/// Adds a key, and the child behind it, to an internal node page that has room for them.
pub fn internal_insert(page: &mut Page, key: &[u8], new_child: PageId)
    requires
        compact(old(page).data@),
        node_kind(old(page).data@) == NodeType::Internal,
        num_keys(old(page).data@) < MAX_KEYS,
        sorted(entries_of(old(page).data@)),
        !has_key(entries_of(old(page).data@), key@),
        data_end(entries_of(old(page).data@)) + key@.len() <= CHILDREN_OFFSET,
    ensures
        final(page).id == old(page).id,
        final(page).is_dirty,
        compact(final(page).data@),
        node_kind(final(page).data@) == NodeType::Internal,
        entries_of(final(page).data@) == entries_of(old(page).data@).insert(
            rank(entries_of(old(page).data@), key@),
            (key@, Seq::empty()),
        ),
        children_of(final(page).data@) == with_child(
            children_of(old(page).data@),
            rank(entries_of(old(page).data@), key@),
            new_child,
        ),
{
    let ghost p0 = page.data@;
    let mut header = read_header(page);
    let n = header.num_keys;
    let search = binary_search(page, n, key);
    let x = search.index;
    let data_offset = get_next_data_offset(page, n);
    proof {
        lemma_next_data_offset(p0, data_offset as int);
    }
    let klen: usize = key.len();
    page.write(data_offset, key);
    let ghost p1 = page.data@;
    proof {
        lemma_same_infos(p0, p1);
    }
    shift_key_infos(page, x, n);
    let ki = KeyInfo {
        key_offset: data_offset as u16,
        key_len: klen as u16,
        value_offset: (data_offset + klen) as u16,
        value_len: 0,
    };
    write_key_info(page, x, &ki);
    let ghost p2 = page.data@;
    proof {
        lemma_same_children(p0, p2);
    }
    shift_children(page, x, n);
    set_child_page_id(page, x + 1, new_child);
    let ghost p3 = page.data@;
    header.num_keys = n + 1;
    write_header(page, &header);
    proof {
        let q = page.data@;
        let e = (key@, Seq::<u8>::empty());
        lemma_same_infos(p2, p3);
        lemma_same_children(p3, q);
        assert(key_of(q, ki) =~= key@);
        assert(value_of(q, ki) =~= Seq::<u8>::empty());
        assert(num_keys(q) == n + 1);
        lemma_inserted(p0, q, x as int, ki, e);
        assert(children_of(q) =~= with_child(children_of(p0), x as int, new_child));
    }
}

} // verus!
