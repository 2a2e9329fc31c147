//! Sorted runs of key-value pairs: the model of what a leaf, a tree and a database hold.
use vstd::prelude::*;
use crate::bytes::{key_le, key_lt, lemma_key_order, lemma_key_total, lemma_key_transitive};

verus! {

/// A key with its value.
pub type Entry = (Seq<u8>, Seq<u8>);

/// The pairs that a vector of byte vectors stands for.
pub open spec fn pairs(v: Seq<(Vec<u8>, Vec<u8>)>) -> Seq<Entry> {
    Seq::new(v.len(), |i: int| (v[i].0@, v[i].1@))
}

/// The bytes that a pair takes up.
pub open spec fn size(e: Entry) -> int {
    e.0.len() as int + e.1.len() as int
}

/// The bytes that a run of pairs takes up.
pub open spec fn total(s: Seq<Entry>) -> int
    decreases s.len(),
{
    if s.len() == 0 {
        0
    } else {
        total(s.drop_last()) + size(s.last())
    }
}

/// The keys rise strictly.
pub open spec fn sorted(s: Seq<Entry>) -> bool {
    forall|i: int, j: int| 0 <= i < j < s.len() ==> key_lt(#[trigger] s[i].0, #[trigger] s[j].0)
}

/// Every key lies in the half-open range; a missing bound bounds nothing.
pub open spec fn within(s: Seq<Entry>, lb: Option<Seq<u8>>, ub: Option<Seq<u8>>) -> bool {
    forall|i: int| 0 <= i < s.len() ==> above(#[trigger] s[i].0, lb) && below(s[i].0, ub)
}

/// The key is not less than the lower bound.
pub open spec fn above(k: Seq<u8>, lb: Option<Seq<u8>>) -> bool {
    lb matches Some(b) ==> key_le(b, k)
}

/// The key is less than the upper bound.
pub open spec fn below(k: Seq<u8>, ub: Option<Seq<u8>>) -> bool {
    ub matches Some(b) ==> key_lt(k, b)
}

/// How many of the keys of a sorted run are less than `k`.
pub open spec fn rank(s: Seq<Entry>, k: Seq<u8>) -> int
    decreases s.len(),
{
    if s.len() == 0 {
        0
    } else if key_lt(s.last().0, k) {
        s.len() as int
    } else {
        rank(s.drop_last(), k)
    }
}

/// A sorted run has the key.
pub open spec fn has_key(s: Seq<Entry>, k: Seq<u8>) -> bool {
    rank(s, k) < s.len() && s[rank(s, k)].0 == k
}

/// A sorted run with the key bound to the value.
pub open spec fn with_entry(s: Seq<Entry>, k: Seq<u8>, v: Seq<u8>) -> Seq<Entry> {
    if has_key(s, k) {
        s.update(rank(s, k), (k, v))
    } else {
        s.insert(rank(s, k), (k, v))
    }
}

/// A sorted run without the key.
pub open spec fn without_key(s: Seq<Entry>, k: Seq<u8>) -> Seq<Entry> {
    if has_key(s, k) {
        s.remove(rank(s, k))
    } else {
        s
    }
}

/// The value bound to the key in a sorted run.
pub open spec fn lookup(s: Seq<Entry>, k: Seq<u8>) -> Option<Seq<u8>> {
    if has_key(s, k) {
        Some(s[rank(s, k)].1)
    } else {
        None
    }
}

/// The map that a sorted run stands for.
pub open spec fn to_map(s: Seq<Entry>) -> Map<Seq<u8>, Seq<u8>> {
    Map::new(|k: Seq<u8>| has_key(s, k), |k: Seq<u8>| s[rank(s, k)].1)
}

pub proof fn lemma_total_add(a: Seq<Entry>, b: Seq<Entry>)
    ensures
        total(a + b) == total(a) + total(b),
        total(a) >= 0,
        total(b) >= 0,
    decreases a.len() + b.len(),
{
    if b.len() == 0 {
        assert(a + b =~= a);
        if a.len() > 0 {
            lemma_total_add(a.drop_last(), b);
        }
    } else {
        assert((a + b).drop_last() =~= a + b.drop_last());
        lemma_total_add(a, b.drop_last());
    }
}

pub proof fn lemma_total_one(e: Entry)
    ensures
        total(seq![e]) == size(e),
{
    assert(seq![e].drop_last() =~= Seq::<Entry>::empty());
    assert(total(Seq::<Entry>::empty()) == 0);
}

pub proof fn lemma_total_take(s: Seq<Entry>, i: int)
    requires
        0 <= i < s.len(),
    ensures
        total(s.take(i + 1)) == total(s.take(i)) + size(s[i]),
        total(s.take(i)) >= 0,
        total(s.take(i + 1)) <= total(s),
        total(s.take(s.len() as int)) == total(s),
{
    assert(s.take(i + 1).drop_last() =~= s.take(i));
    assert(s =~= s.take(i + 1) + s.skip(i + 1));
    lemma_total_add(s.take(i + 1), s.skip(i + 1));
    lemma_total_add(s.take(i), s.skip(i));
    assert(s.take(s.len() as int) =~= s);
}

/// An entry takes no more room than the run that holds it.
pub proof fn lemma_total_member(s: Seq<Entry>, i: int)
    requires
        0 <= i < s.len(),
    ensures
        size(s[i]) <= total(s),
{
    lemma_total_take(s, i);
}

pub proof fn lemma_total_split(s: Seq<Entry>, i: int)
    requires
        0 <= i <= s.len(),
    ensures
        total(s) == total(s.take(i)) + total(s.skip(i)),
        total(s.take(i)) >= 0,
        total(s.skip(i)) >= 0,
{
    assert(s =~= s.take(i) + s.skip(i));
    lemma_total_add(s.take(i), s.skip(i));
}

pub proof fn lemma_total_insert(s: Seq<Entry>, i: int, e: Entry)
    requires
        0 <= i <= s.len(),
    ensures
        total(s.insert(i, e)) == total(s) + size(e),
{
    assert(s.insert(i, e) =~= s.take(i) + (seq![e] + s.skip(i)));
    lemma_total_add(s.take(i), seq![e] + s.skip(i));
    lemma_total_add(seq![e], s.skip(i));
    lemma_total_one(e);
    lemma_total_split(s, i);
}

pub proof fn lemma_total_remove(s: Seq<Entry>, i: int)
    requires
        0 <= i < s.len(),
    ensures
        total(s.remove(i)) == total(s) - size(s[i]),
        total(s.remove(i)) >= 0,
{
    assert(s.remove(i).insert(i, s[i]) =~= s);
    lemma_total_insert(s.remove(i), i, s[i]);
    lemma_total_add(s.remove(i), Seq::empty());
}

pub proof fn lemma_total_update(s: Seq<Entry>, i: int, e: Entry)
    requires
        0 <= i < s.len(),
    ensures
        total(s.update(i, e)) == total(s) - size(s[i]) + size(e),
{
    assert(s.update(i, e) =~= s.remove(i).insert(i, e));
    lemma_total_insert(s.remove(i), i, e);
    lemma_total_remove(s, i);
}

/// The keys before the rank are less, the key at the rank and those after it are not.
pub proof fn lemma_rank(s: Seq<Entry>, k: Seq<u8>)
    requires
        sorted(s),
    ensures
        0 <= rank(s, k) <= s.len(),
        forall|i: int| 0 <= i < rank(s, k) ==> key_lt(#[trigger] s[i].0, k),
        forall|i: int| rank(s, k) <= i < s.len() ==> !key_lt(#[trigger] s[i].0, k),
        forall|i: int| rank(s, k) < i < s.len() ==> key_lt(k, #[trigger] s[i].0),
        rank(s, k) < s.len() ==> key_le(k, s[rank(s, k)].0),
    decreases s.len(),
{
    lemma_key_order();
    if s.len() > 0 {
        let t = s.drop_last();
        assert forall|i: int, j: int| 0 <= i < j < t.len() implies key_lt(
            #[trigger] t[i].0,
            #[trigger] t[j].0,
        ) by {
            assert(key_lt(s[i].0, s[j].0));
        }
        lemma_rank(t, k);
        assert(forall|i: int| 0 <= i < t.len() ==> s[i] == t[i]);
        if key_lt(s.last().0, k) {
            assert forall|i: int| 0 <= i < s.len() implies key_lt(#[trigger] s[i].0, k) by {
                if i < s.len() - 1 {
                    lemma_key_transitive(s[i].0, s.last().0, k);
                }
            }
        } else {
            let r = rank(s, k);
            assert(r == rank(t, k));
            assert forall|i: int| r < i < s.len() implies key_lt(k, #[trigger] s[i].0) by {
                if i == s.len() - 1 {
                    assert(s[r] == t[r]);
                    assert(key_lt(s[r].0, s[i].0));
                    lemma_key_total(k, s[r].0);
                } else {
                    assert(s[i] == t[i]);
                }
            }
            lemma_key_total(k, s.last().0);
        }
    }
}

/// Where the keys before `p` are less and those from `p` on are not, `p` is the rank.
pub proof fn lemma_rank_is(s: Seq<Entry>, k: Seq<u8>, p: int)
    requires
        sorted(s),
        0 <= p <= s.len(),
        forall|i: int| 0 <= i < p ==> key_lt(#[trigger] s[i].0, k),
        p < s.len() ==> !key_lt(s[p].0, k),
    ensures
        rank(s, k) == p,
{
    lemma_rank(s, k);
    let r = rank(s, k);
    if r < p {
        assert(key_lt(s[r].0, k));
    } else if p < r {
        assert(key_lt(s[p].0, k));
    }
}

/// A key is in a sorted run exactly where some pair has it.
pub proof fn lemma_has_key(s: Seq<Entry>, k: Seq<u8>)
    requires
        sorted(s),
    ensures
        has_key(s, k) <==> exists|i: int| 0 <= i < s.len() && #[trigger] s[i].0 == k,
        forall|i: int| 0 <= i < s.len() && #[trigger] s[i].0 == k ==> i == rank(s, k),
{
    lemma_rank(s, k);
    lemma_key_order();
    if has_key(s, k) {
        assert(s[rank(s, k)].0 == k);
    }
    assert forall|i: int| 0 <= i < s.len() && #[trigger] s[i].0 == k implies i == rank(s, k) by {
        lemma_key_total(k, k);
        if i < rank(s, k) {
            assert(key_lt(s[i].0, k));
        } else if i > rank(s, k) {
            assert(key_lt(k, s[i].0));
        }
    }
}

/// Binding a key keeps a run sorted and, where the key lies in the range, within it.
pub proof fn lemma_with_entry(s: Seq<Entry>, k: Seq<u8>, v: Seq<u8>)
    requires
        sorted(s),
    ensures
        sorted(with_entry(s, k, v)),
        forall|lb: Option<Seq<u8>>, ub: Option<Seq<u8>>|
            #![trigger within(with_entry(s, k, v), lb, ub)]
            within(s, lb, ub) && above(k, lb) && below(k, ub) ==> within(
                with_entry(s, k, v),
                lb,
                ub,
            ),
{
    lemma_rank(s, k);
    lemma_key_order();
    let r = rank(s, k);
    let w = with_entry(s, k, v);
    if !has_key(s, k) {
        assert(r < s.len() ==> key_lt(k, s[r].0));
        assert(w.len() == s.len() + 1);
        assert forall|i: int, j: int| 0 <= i < j < w.len() implies key_lt(
            #[trigger] w[i].0,
            #[trigger] w[j].0,
        ) by {
            let a = if i < r { i } else { i - 1 };
            let b = if j < r { j } else { j - 1 };
            if i != r {
                assert(w[i] == s[a]);
            }
            if j != r {
                assert(w[j] == s[b]);
            }
            if i == r {
                if b > r {
                    assert(key_lt(k, s[b].0));
                }
            } else if j == r {
                assert(key_lt(s[a].0, k));
            } else {
                assert(key_lt(s[a].0, s[b].0));
            }
        }
        assert forall|lb: Option<Seq<u8>>, ub: Option<Seq<u8>>|
            #![trigger within(with_entry(s, k, v), lb, ub)]
            within(s, lb, ub) && above(k, lb) && below(k, ub) implies within(
            with_entry(s, k, v),
            lb,
            ub,
        ) by {
            assert forall|i: int| 0 <= i < w.len() implies above(#[trigger] w[i].0, lb) && below(
                w[i].0,
                ub,
            ) by {
                if i < r {
                    assert(w[i] == s[i]);
                } else if i > r {
                    assert(w[i] == s[i - 1]);
                }
            }
        }
    } else {
        assert forall|i: int, j: int| 0 <= i < j < w.len() implies key_lt(
            #[trigger] w[i].0,
            #[trigger] w[j].0,
        ) by {
            assert(w[i].0 == s[i].0);
            assert(w[j].0 == s[j].0);
        }
        assert forall|lb: Option<Seq<u8>>, ub: Option<Seq<u8>>|
            #![trigger within(with_entry(s, k, v), lb, ub)]
            within(s, lb, ub) && above(k, lb) && below(k, ub) implies within(
            with_entry(s, k, v),
            lb,
            ub,
        ) by {
            assert forall|i: int| 0 <= i < w.len() implies above(#[trigger] w[i].0, lb) && below(
                w[i].0,
                ub,
            ) by {
                assert(w[i].0 == s[i].0);
            }
        }
    }
}

/// Taking a pair out keeps a run sorted and within its range.
pub proof fn lemma_without_key(s: Seq<Entry>, k: Seq<u8>)
    requires
        sorted(s),
    ensures
        sorted(without_key(s, k)),
        forall|lb: Option<Seq<u8>>, ub: Option<Seq<u8>>|
            #![trigger within(without_key(s, k), lb, ub)]
            within(s, lb, ub) ==> within(without_key(s, k), lb, ub),
{
    lemma_rank(s, k);
    let r = rank(s, k);
    let w = without_key(s, k);
    if has_key(s, k) {
        assert forall|i: int, j: int| 0 <= i < j < w.len() implies key_lt(
            #[trigger] w[i].0,
            #[trigger] w[j].0,
        ) by {
            let a = if i < r { i } else { i + 1 };
            let b = if j < r { j } else { j + 1 };
            assert(w[i] == s[a]);
            assert(w[j] == s[b]);
        }
        assert forall|lb: Option<Seq<u8>>, ub: Option<Seq<u8>>|
            #![trigger within(without_key(s, k), lb, ub)]
            within(s, lb, ub) implies within(without_key(s, k), lb, ub) by {
            assert forall|i: int| 0 <= i < w.len() implies above(#[trigger] w[i].0, lb) && below(
                w[i].0,
                ub,
            ) by {
                let a = if i < r { i } else { i + 1 };
                assert(w[i] == s[a]);
            }
        }
    }
}

/// Every key of `a` comes before every key of `b`.
pub open spec fn precedes(a: Seq<Entry>, b: Seq<Entry>) -> bool {
    forall|i: int, j: int|
        0 <= i < a.len() && 0 <= j < b.len() ==> key_lt(#[trigger] a[i].0, #[trigger] b[j].0)
}

/// Every key of the run is less than `k`.
pub open spec fn all_lt(s: Seq<Entry>, k: Seq<u8>) -> bool {
    forall|i: int| 0 <= i < s.len() ==> key_lt(#[trigger] s[i].0, k)
}

/// `k` is less than every key of the run.
pub open spec fn all_gt(s: Seq<Entry>, k: Seq<u8>) -> bool {
    forall|i: int| 0 <= i < s.len() ==> key_lt(k, #[trigger] s[i].0)
}

/// Joining two runs, the first before the second, gives a sorted run.
pub proof fn lemma_sorted_add(a: Seq<Entry>, b: Seq<Entry>)
    requires
        sorted(a),
        sorted(b),
        precedes(a, b),
    ensures
        sorted(a + b),
{
    let s = a + b;
    assert forall|i: int, j: int| 0 <= i < j < s.len() implies key_lt(
        #[trigger] s[i].0,
        #[trigger] s[j].0,
    ) by {
        if j < a.len() {
            assert(s[i] == a[i] && s[j] == a[j]);
        } else if i >= a.len() {
            assert(s[i] == b[i - a.len()] && s[j] == b[j - a.len()]);
        } else {
            assert(s[i] == a[i] && s[j] == b[j - a.len()]);
        }
    }
}

/// The parts of a sorted run are sorted, and each comes before the next.
pub proof fn lemma_sorted_parts(a: Seq<Entry>, b: Seq<Entry>)
    requires
        sorted(a + b),
    ensures
        sorted(a),
        sorted(b),
        precedes(a, b),
{
    let s = a + b;
    assert forall|i: int, j: int| 0 <= i < j < a.len() implies key_lt(
        #[trigger] a[i].0,
        #[trigger] a[j].0,
    ) by {
        assert(s[i] == a[i] && s[j] == a[j]);
    }
    assert forall|i: int, j: int| 0 <= i < j < b.len() implies key_lt(
        #[trigger] b[i].0,
        #[trigger] b[j].0,
    ) by {
        assert(s[i + a.len()] == b[i] && s[j + a.len()] == b[j]);
    }
    assert forall|i: int, j: int| 0 <= i < a.len() && 0 <= j < b.len() implies key_lt(
        #[trigger] a[i].0,
        #[trigger] b[j].0,
    ) by {
        assert(s[i] == a[i] && s[j + a.len()] == b[j]);
    }
}

/// In a run of three parts a key that lies between the outer parts is found, bound and taken
/// out in the middle one.
pub proof fn lemma_middle(a: Seq<Entry>, b: Seq<Entry>, c: Seq<Entry>, k: Seq<u8>, v: Seq<u8>)
    requires
        sorted(a + b + c),
        all_lt(a, k),
        all_gt(c, k),
    ensures
        rank(a + b + c, k) == a.len() + rank(b, k),
        has_key(a + b + c, k) == has_key(b, k),
        lookup(a + b + c, k) == lookup(b, k),
        with_entry(a + b + c, k, v) == a + with_entry(b, k, v) + c,
        without_key(a + b + c, k) == a + without_key(b, k) + c,
{
    let s = a + b + c;
    lemma_sorted_parts(a + b, c);
    lemma_sorted_parts(a, b);
    lemma_rank(b, k);
    lemma_key_order();
    let p = rank(b, k);
    let r = a.len() + p;
    assert forall|i: int| 0 <= i < r implies key_lt(#[trigger] s[i].0, k) by {
        if i < a.len() {
            assert(s[i] == a[i]);
        } else {
            assert(s[i] == b[i - a.len()]);
        }
    }
    if r < s.len() {
        if p < b.len() {
            assert(s[r] == b[p]);
        } else {
            assert(s[r] == c[0]);
            assert(key_lt(k, c[0].0));
        }
    }
    lemma_rank_is(s, k, r);
    if p < b.len() {
        assert(s[r] == b[p]);
    } else if r < s.len() {
        assert(s[r] == c[0]);
        assert(key_lt(k, c[0].0));
        assert(!has_key(s, k));
    }
    assert(with_entry(s, k, v) =~= a + with_entry(b, k, v) + c);
    assert(without_key(s, k) =~= a + without_key(b, k) + c);
}

/// Binding a key in a sorted run binds it in the map.
pub proof fn lemma_map_with_entry(s: Seq<Entry>, k: Seq<u8>, v: Seq<u8>)
    requires
        sorted(s),
    ensures
        to_map(with_entry(s, k, v)) == to_map(s).insert(k, v),
{
    let w = with_entry(s, k, v);
    let r = rank(s, k);
    lemma_with_entry(s, k, v);
    lemma_rank(s, k);
    assert forall|q: Seq<u8>| #![trigger has_key(w, q)]
        has_key(w, q) == (q == k || has_key(s, q)) && (has_key(w, q) ==> w[rank(w, q)].1 == if q
            == k {
            v
        } else {
            s[rank(s, q)].1
        }) by {
        lemma_has_key(w, q);
        lemma_has_key(s, q);
        lemma_has_key(s, k);
        let ins = !has_key(s, k);
        if q == k {
            assert(w[r].0 == k);
        } else if has_key(s, q) {
            let i = rank(s, q);
            let j = if ins && i >= r { i + 1 } else { i };
            assert(i != r || ins);
            assert(w[j] == s[i]);
        } else if has_key(w, q) {
            let j = rank(w, q);
            assert(w[j].0 == q);
            let i = if ins && j > r { j - 1 } else { j };
            assert(s[i].0 == q);
        }
    }
    assert(to_map(w) =~= to_map(s).insert(k, v));
}

/// Taking a pair out of a sorted run takes it out of the map.
pub proof fn lemma_map_without_key(s: Seq<Entry>, k: Seq<u8>)
    requires
        sorted(s),
    ensures
        to_map(without_key(s, k)) == to_map(s).remove(k),
{
    let w = without_key(s, k);
    let r = rank(s, k);
    lemma_without_key(s, k);
    lemma_rank(s, k);
    assert forall|q: Seq<u8>| #![trigger has_key(w, q)]
        has_key(w, q) == (q != k && has_key(s, q)) && (has_key(w, q) ==> w[rank(w, q)].1 == s[rank(
            s,
            q,
        )].1) by {
        lemma_has_key(w, q);
        lemma_has_key(s, q);
        lemma_has_key(s, k);
        let del = has_key(s, k);
        if q != k && has_key(s, q) {
            let i = rank(s, q);
            let j = if del && i > r { i - 1 } else { i };
            assert(w[j] == s[i]);
        } else if has_key(w, q) {
            let j = rank(w, q);
            assert(w[j].0 == q);
            let i = if del && j >= r { j + 1 } else { j };
            assert(s[i].0 == q);
        }
    }
    assert(to_map(w) =~= to_map(s).remove(k));
}

/// The map of a sorted run gives for each key what a lookup gives.
pub proof fn lemma_map_lookup(s: Seq<Entry>, k: Seq<u8>)
    ensures
        lookup(s, k) == (if to_map(s).dom().contains(k) {
            Some(to_map(s)[k])
        } else {
            None
        }),
{
}

} // verus!
