//! Where the pairs of a node that is too full are cut, so that two pages hold them.
use vstd::prelude::*;
use crate::bytes::{key_lt, lemma_key_order};
use crate::constants::{MAX_KEY_SIZE, PAGE_SIZE};
use crate::entries::{
    has_key, lemma_has_key, lemma_rank, lemma_rank_is, lemma_sorted_parts, lemma_total_one,
    lemma_total_split, lemma_total_take, pairs, rank, size, sorted, total, with_entry, Entry,
};
use crate::node::{
    data_end, entries_of, in_page, info, readable, takes_in, CHILDREN_OFFSET, DATA_START_OFFSET,
    MAX_KEYS,
};
use crate::shape::storable;
use crate::tree::{
    bounded, cut_fits, cut_of, first_cut, internal_cut, leaf_cut, leaf_holds, leaf_parts, roomy,
    valueless,
};

verus! {

/// A search for a cut from `m` on ends at the first one.
proof fn lemma_first_cut(w: Seq<Entry>, m: int, gap: int, limit: int)
    requires
        0 <= gap,
    ensures
        first_cut(w, m, gap, limit) >= m,
        first_cut(w, m, gap, limit) + gap < w.len() ==> cut_fits(
            w,
            first_cut(w, m, gap, limit),
            gap,
            limit,
        ),
        forall|x: int|
            m <= x && x + gap < w.len() && #[trigger] cut_fits(w, x, gap, limit) ==> first_cut(
                w,
                m,
                gap,
                limit,
            ) <= x,
    decreases w.len() - m,
{
    if !(m + gap >= w.len() || cut_fits(w, m, gap, limit)) {
        lemma_first_cut(w, m + 1, gap, limit);
    }
}

/// A cut is found where there is one.
pub proof fn lemma_cut_found(w: Seq<Entry>, gap: int, limit: int)
    requires
        0 <= gap,
        w.len() as int / 2 + gap < w.len(),
    ensures
        cut_of(w, gap, limit) == w.len() as int / 2 || cut_of(w, gap, limit) >= 1,
        cut_of(w, gap, limit) + gap < w.len() ==> cut_fits(
            w,
            cut_of(w, gap, limit),
            gap,
            limit,
        ),
        forall|x: int|
            1 <= x && x + gap < w.len() && #[trigger] cut_fits(w, x, gap, limit) ==> cut_of(
                w,
                gap,
                limit,
            ) + gap < w.len(),
{
    lemma_first_cut(w, 1, gap, limit);
}

/// Pairs of a bounded run are bounded.
pub proof fn lemma_bounded_parts(s: Seq<Entry>, m: int)
    requires
        bounded(s),
        0 <= m <= s.len(),
    ensures
        bounded(s.take(m)),
        bounded(s.skip(m)),
{
    assert forall|i: int| 0 <= i < s.take(m).len() implies storable(
        (#[trigger] s.take(m)[i]).0,
        s.take(m)[i].1,
    ) by {
        assert(s.take(m)[i] == s[i]);
    }
    assert forall|i: int| 0 <= i < s.skip(m).len() implies storable(
        (#[trigger] s.skip(m)[i]).0,
        s.skip(m)[i].1,
    ) by {
        assert(s.skip(m)[i] == s[m + i]);
    }
}

/// A bounded run stays so with a key bound.
pub proof fn lemma_bounded_with(s: Seq<Entry>, k: Seq<u8>, v: Seq<u8>)
    requires
        sorted(s),
        bounded(s),
        storable(k, v),
    ensures
        bounded(with_entry(s, k, v)),
{
    let w = with_entry(s, k, v);
    let r = rank(s, k);
    lemma_rank(s, k);
    assert forall|i: int| 0 <= i < w.len() implies storable((#[trigger] w[i]).0, w[i].1) by {
        if i != r {
            if has_key(s, k) || i < r {
                assert(w[i] == s[i]);
            } else {
                assert(w[i] == s[i - 1]);
            }
        }
    }
}

/// The parts of pairs that fit in a leaf page fit in one each.
pub proof fn lemma_holds_parts(s: Seq<Entry>, m: int)
    requires
        leaf_holds(s),
        0 <= m <= s.len(),
    ensures
        leaf_holds(s.take(m)),
        leaf_holds(s.skip(m)),
{
    lemma_bounded_parts(s, m);
    lemma_total_split(s, m);
}

/// A page holds one pair.
proof fn lemma_one_holds(e: Entry)
    requires
        storable(e.0, e.1),
    ensures
        data_end(seq![e]) <= PAGE_SIZE,
{
    lemma_total_one(e);
}

/// The pair `e` with pairs that fit in a leaf page before it or behind it can be cut from them.
proof fn lemma_cut_off(s: Seq<Entry>, e: Entry)
    requires
        data_end(s) <= PAGE_SIZE,
        s.len() > 0,
        storable(e.0, e.1),
    ensures
        leaf_cut(s.push(e)) < s.len() + 1,
        leaf_cut(seq![e] + s) < s.len() + 1,
{
    let n = s.len() as int;
    let a = s.push(e);
    let b = seq![e] + s;
    lemma_one_holds(e);
    assert(a.take(n) =~= s);
    assert(a.skip(n) =~= seq![e]);
    assert(cut_fits(a, n, 0, PAGE_SIZE as int));
    lemma_cut_found(a, 0, PAGE_SIZE as int);
    assert(b.take(1) =~= seq![e]);
    assert(b.skip(1) =~= s);
    assert(cut_fits(b, 1, 0, PAGE_SIZE as int));
    lemma_cut_found(b, 0, PAGE_SIZE as int);
}

/// A leaf that is full is cut in two with the pair, or parted where the key belongs. Once it is
/// parted, the part in which the key belongs is not.
pub proof fn lemma_leaf_full(s: Seq<Entry>, k: Seq<u8>, v: Seq<u8>)
    requires
        sorted(s),
        leaf_holds(s),
        storable(k, v),
        !takes_in(s, k, v),
    ensures
        ({
            let w = with_entry(s, k, v);
            let m = leaf_cut(w);
            let r = rank(s, k);
            if leaf_parts(s, k, v) {
                &&& 0 < r < s.len()
                &&& leaf_holds(s.take(r))
                &&& leaf_holds(s.skip(r))
                &&& !leaf_parts(
                    if has_key(s, k) {
                        s.skip(r)
                    } else {
                        s.take(r)
                    },
                    k,
                    v,
                )
            } else {
                &&& 0 <= m < w.len()
                &&& m == 0 ==> s.len() == 0
                &&& leaf_holds(w.take(m))
                &&& leaf_holds(w.skip(m))
            }
        }),
{
    let w = with_entry(s, k, v);
    let m = leaf_cut(w);
    let r = rank(s, k);
    let e = (k, v);
    let n = s.len() as int;
    lemma_rank(s, k);
    lemma_key_order();
    lemma_bounded_with(s, k, v);
    lemma_one_holds(e);
    lemma_cut_found(w, 0, PAGE_SIZE as int);
    if has_key(s, k) && n == 1 {
        assert(w =~= seq![e]);
    }
    if w.len() == 1 {
        assert(w =~= seq![e]);
        assert(w.take(0) =~= Seq::<Entry>::empty());
        assert(w.skip(0) =~= w);
        assert(cut_fits(w, 0, 0, PAGE_SIZE as int));
    }
    if leaf_parts(s, k, v) {
        if r == 0 && n > 0 {
            let rest = if has_key(s, k) {
                s.skip(1)
            } else {
                s
            };
            lemma_holds_parts(s, 1);
            assert(w =~= seq![e] + rest);
            lemma_cut_off(rest, e);
        }
        if r == n && n > 0 {
            assert(w =~= s.push(e));
            lemma_cut_off(s, e);
        }
        lemma_holds_parts(s, r);
        assert(s =~= s.take(r) + s.skip(r));
        lemma_sorted_parts(s.take(r), s.skip(r));
        if has_key(s, k) {
            let half = s.skip(r);
            assert(half[0].0 == k);
            lemma_has_key(half, k);
            let x = with_entry(half, k, v);
            if half.len() == 1 {
                assert(x =~= seq![e]);
            } else {
                let rest = half.skip(1);
                lemma_holds_parts(half, 1);
                assert(x =~= seq![e] + rest);
                lemma_cut_off(rest, e);
            }
        } else {
            let half = s.take(r);
            assert forall|i: int| 0 <= i < r implies key_lt(#[trigger] half[i].0, k) by {
                assert(half[i] == s[i]);
            }
            lemma_rank_is(half, k, r);
            let x = with_entry(half, k, v);
            assert(x =~= half.push(e));
            lemma_cut_off(half, e);
        }
    } else {
        lemma_bounded_parts(w, m);
    }
}

/// The first place where keys of bounded length have passed the size.
proof fn lemma_passes(keys: Seq<Entry>, n: int) -> (j: int)
    requires
        0 <= n <= keys.len(),
        total(keys.take(n)) > MAX_KEY_SIZE,
        bounded(keys),
        valueless(keys),
    ensures
        2 <= j <= n,
        MAX_KEY_SIZE < total(keys.take(j)) <= 2 * MAX_KEY_SIZE,
        total(keys.take(j - 1)) <= MAX_KEY_SIZE,
    decreases n,
{
    assert(keys.take(0) =~= Seq::<Entry>::empty());
    assert(n > 0);
    lemma_total_take(keys, n - 1);
    assert(storable(keys[n - 1].0, keys[n - 1].1) && keys[n - 1].1.len() == 0);
    if total(keys.take(n - 1)) > MAX_KEY_SIZE {
        lemma_passes(keys, n - 1)
    } else {
        n
    }
}

/// The keys of an internal node that one more key made too full are cut in two, with a key on
/// either side.
pub proof fn lemma_internal_full(keys: Seq<Entry>)
    requires
        !roomy(keys),
        keys.len() <= MAX_KEYS + 1,
        data_end(keys) <= CHILDREN_OFFSET + MAX_KEY_SIZE,
        bounded(keys),
        valueless(keys),
    ensures
        ({
            let m = internal_cut(keys);
            &&& 1 <= m
            &&& m + 1 < keys.len()
            &&& roomy(keys.take(m))
            &&& roomy(keys.skip(m + 1))
        }),
{
    let n = keys.len() as int;
    let limit = CHILDREN_OFFSET as int;
    assert(keys.take(n) =~= keys);
    if data_end(keys) > CHILDREN_OFFSET {
        let j = lemma_passes(keys, n);
        lemma_total_split(keys, j);
        lemma_total_take(keys, j - 1);
        if j == n {
            assert(keys.take(j) =~= keys);
        }
        assert(cut_fits(keys, j - 1, 1, limit));
    } else {
        let mid = n / 2;
        lemma_total_split(keys, mid);
        lemma_total_split(keys, mid + 1);
        assert(cut_fits(keys, mid, 1, limit));
    }
    lemma_cut_found(keys, 1, limit);
}

/// No pair is larger than two pages.
pub open spec fn small(s: Seq<Entry>) -> bool {
    forall|i: int| 0 <= i < s.len() ==> size(#[trigger] s[i]) <= 2 * PAGE_SIZE
}

pub proof fn lemma_small(s: Seq<Entry>)
    requires
        bounded(s),
    ensures
        small(s),
{
    assert forall|i: int| 0 <= i < s.len() implies size(#[trigger] s[i]) <= 2 * PAGE_SIZE by {
        assert(storable(s[i].0, s[i].1));
    }
}

/// The pairs of a page are small, with another small one too.
pub proof fn lemma_small_with(p: Seq<u8>, k: Seq<u8>, v: Seq<u8>)
    requires
        readable(p),
        sorted(entries_of(p)),
        size((k, v)) <= 2 * PAGE_SIZE,
    ensures
        small(with_entry(entries_of(p), k, v)),
{
    let s = entries_of(p);
    let w = with_entry(s, k, v);
    let r = rank(s, k);
    lemma_rank(s, k);
    assert forall|i: int| 0 <= i < s.len() implies size(#[trigger] s[i]) <= 2 * PAGE_SIZE by {
        assert(in_page(info(p, i)));
    }
    assert forall|i: int| 0 <= i < w.len() implies size(#[trigger] w[i]) <= 2 * PAGE_SIZE by {
        if i != r {
            if has_key(s, k) || i < r {
                assert(w[i] == s[i]);
            } else {
                assert(w[i] == s[i - 1]);
            }
        }
    }
}

/// The bytes that the pairs from `start` to `end` take up.
fn span(v: &Vec<(Vec<u8>, Vec<u8>)>, start: usize, end: usize) -> (n: usize)
    requires
        start <= end <= v@.len(),
        end - start <= MAX_KEYS + 1,
        small(pairs(v@)),
    ensures
        n == total(pairs(v@).subrange(start as int, end as int)),
        n <= 8192 * (MAX_KEYS + 1),
{
    let ghost s = pairs(v@);
    let mut n: usize = 0;
    let mut i: usize = start;
    assert(s.subrange(start as int, start as int) =~= Seq::<Entry>::empty());
    while i < end
        invariant
            start <= i <= end <= v@.len(),
            end - start <= MAX_KEYS + 1,
            small(s),
            s == pairs(v@),
            n == total(s.subrange(start as int, i as int)),
            n <= (i - start) * 8192,
        decreases end - i,
    {
        proof {
            let a = s.subrange(start as int, i + 1);
            assert(a.drop_last() =~= s.subrange(start as int, i as int));
            assert(a.last() == s[i as int]);
            assert(size(s[i as int]) <= 2 * PAGE_SIZE);
        }
        n = n + (v[i].0.len() + v[i].1.len());
        i += 1;
    }
    n
}

/// Whether the pairs can be cut before the `m`-th.
fn can_cut(v: &Vec<(Vec<u8>, Vec<u8>)>, m: usize, gap: usize, limit: usize) -> (r: bool)
    requires
        m + gap <= v@.len() <= MAX_KEYS + 1,
        small(pairs(v@)),
    ensures
        r == cut_fits(pairs(v@), m as int, gap as int, limit as int),
{
    let ghost w = pairs(v@);
    let n: usize = v.len();
    proof {
        assert(w.subrange(0, m as int) =~= w.take(m as int));
        assert(w.subrange(m + gap, n as int) =~= w.skip(m + gap));
    }
    DATA_START_OFFSET + span(v, 0, m) <= limit && DATA_START_OFFSET + span(v, m + gap, n) <= limit
}

/// Where the pairs are cut.
pub fn find_cut(v: &Vec<(Vec<u8>, Vec<u8>)>, gap: usize, limit: usize) -> (m: usize)
    requires
        v@.len() as int / 2 + gap < v@.len() <= MAX_KEYS + 1,
        small(pairs(v@)),
    ensures
        m == cut_of(pairs(v@), gap as int, limit as int),
{
    let ghost w = pairs(v@);
    let n: usize = v.len();
    let mid: usize = n / 2;
    if can_cut(v, mid, gap, limit) {
        return mid;
    }
    let mut m: usize = 1;
    while m + gap < n && !can_cut(v, m, gap, limit)
        invariant
            n == v@.len(),
            n <= MAX_KEYS + 1,
            w == pairs(v@),
            small(w),
            gap <= n,
            1 <= m <= n,
            first_cut(w, 1, gap as int, limit as int) == first_cut(
                w,
                m as int,
                gap as int,
                limit as int,
            ),
        decreases n - m,
    {
        m += 1;
    }
    m
}

} // verus!
