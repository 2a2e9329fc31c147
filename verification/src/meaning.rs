//! What the calls of a database mean, in terms of its keys, values and bytes alone.
use vstd::prelude::*;
use crate::bytes::{
    enc64, key_lt, law_key_order, lemma_enc64, lemma_key_order, lemma_le_window, splice, zeros,
};
use crate::constants::{MetaData, PageId};
use crate::counts::{law_counts, law_levels, lemma_page_list, page_list};
use crate::cuts::lemma_cut_found;
use crate::database::{Database, InspectStats, Stats, VerifyStats};
use crate::effects::{
    ending_room, holds_changes, imported, lemma_valid_not_empty, log_ops, openable, opened,
    record_count, valid_key,
};
use crate::entries::{
    above, below, has_key, lemma_has_key, lemma_rank, lemma_rank_is, lookup, rank, sorted, total,
    with_entry, Entry,
};
use crate::error::Result;
use crate::export::{export_bytes, law_export_round_trip, pairs_from};
use crate::growth::tight;
use crate::laws::{
    fate, law_delete_then_get, law_export_import, law_fate, law_put_then_get,
    law_replay_transaction, lemma_all_acceptable, lemma_logs_no_commit, records_of, refused,
    tellable, Fate,
};
use crate::node::takes_in;
use crate::pager::{
    after_free, allocated, chain, file_pages, lemma_chain_frame, lemma_with_meta, meta_of,
    next_free, same_settings, Pages,
};
use crate::replay::{
    acceptable, all_acceptable, committed, inserts_of, is_change, open_ops, run, Op,
};
use crate::requests::{data_after, log_after};
use crate::shape::{
    empty_shape, lemma_fresh_sound, lemma_shape_ok, lemma_sorted, lemma_with, lemma_without,
    shape_of, storable, Shape,
};
use crate::store::{lemma_distinct_bound, lemma_sound, lemma_sound_as, sound, sound_as};
use crate::tree::{
    cut_fits, forest_entries, forest_keys, forest_leaves, forest_nodes, grow_leaf, internal_cut,
    leaf_cut, lower, roomy, route, upper, Grown, Tree,
};
use crate::tree_laws::{lemma_held_frame, lemma_leaf_for, lemma_route, lemma_wf_ordered};
use crate::wal::{commit_record, LogEntry};
use crate::wal_laws::{all_fit, law_log_round_trip, log_bytes, read_back};

verus! {

/// The pairs of a sound database are listed in the order of a dictionary whose letters are the
/// bytes of the keys.
pub proof fn law_listed_in_order(db: &Database, i: int, j: int)
    requires
        db.sound(),
        0 <= i < j < db.entries().len(),
    ensures
        ({
            let a = db.entries()[i].0;
            let b = db.entries()[j].0;
            ||| a.len() < b.len() && a == b.take(a.len() as int)
            ||| exists|x: int|
                0 <= x < a.len() && x < b.len() && a.take(x) == b.take(x) && #[trigger] a[x] < b[x]
        }),
{
    lemma_shape_ok(db.pages(), db.root());
    lemma_sorted(db.shape());
    law_key_order(db.entries()[i].0, db.entries()[j].0);
}

/// A scan hands each pair to the function once, in the order of a dictionary, and nothing else.
pub proof fn law_scan(before: &Database, after: &Database, i: int)
    requires
        before.sound(),
        after.handed() == before.handed() + before.entries(),
        0 <= i < before.entries().len(),
    ensures
        after.handed().len() == before.handed().len() + before.entries().len(),
        after.handed()[before.handed().len() + i] == before.entries()[i],
        i > 0 ==> ({
            let a = after.handed()[before.handed().len() + i - 1].0;
            let b = after.handed()[before.handed().len() + i].0;
            ||| a.len() < b.len() && a == b.take(a.len() as int)
            ||| exists|x: int|
                0 <= x < a.len() && x < b.len() && a.take(x) == b.take(x) && #[trigger] a[x] < b[x]
        }),
{
    if i > 0 {
        law_listed_in_order(before, i - 1, i);
    }
}

/// A key is found with a value if that pair is listed, and only then. It is not found if no pair
/// with it is listed, and only then.
pub proof fn law_found(s: Shape, k: Seq<u8>)
    requires
        s.ok(),
    ensures
        match lookup(s.entries(), k) {
            Some(v) => s.entries().contains((k, v)) && s.map().dom().contains(k) && s.map()[k] == v,
            None => !s.map().dom().contains(k) && forall|i: int|
                0 <= i < s.entries().len() ==> (#[trigger] s.entries()[i]).0 != k,
        },
        forall|v: Seq<u8>| s.entries().contains((k, v)) ==> lookup(s.entries(), k) == Some(v),
{
    let es = s.entries();
    lemma_sorted(s);
    lemma_has_key(es, k);
    lemma_rank(es, k);
    if has_key(es, k) {
        assert(es[rank(es, k)] == (k, es[rank(es, k)].1));
    }
    assert forall|v: Seq<u8>| es.contains((k, v)) implies lookup(es, k) == Some(v) by {
        let i = choose|i: int| 0 <= i < es.len() && es[i] == (k, v);
        assert(es[i].0 == k);
    }
}

/// Keys of 1 to 1024 bytes and values of up to 2048 bytes can be put, and every key that can be put
/// can be asked for and deleted.
pub proof fn law_sizes(k: Seq<u8>, v: Seq<u8>)
    ensures
        storable(k, v) <==> 1 <= k.len() <= 1024 && v.len() <= 2048,
        valid_key(k) <==> 1 <= k.len() <= 1024,
        storable(k, v) ==> valid_key(k),
{
}

/// What was put is found: the key has a size that can be asked for, and it is found with its value.
pub proof fn law_put_is_found(before: &Database, after: &Database, k: Seq<u8>, v: Seq<u8>)
    requires
        before.can_put(k, v),
        after.entries() == with_entry(before.entries(), k, v),
    ensures
        1 <= k.len() <= 1024,
        valid_key(k),
        lookup(after.entries(), k) == Some(v),
{
    lemma_shape_ok(before.pages(), before.root());
    lemma_with(before.shape(), k, v);
    law_put_then_get(before.shape(), k, v, k);
}

/// Putting a pair leaves every pair with another key, adds the pair, and takes out the one that had
/// the key before.
pub proof fn law_put_pairs(s: Shape, k: Seq<u8>, v: Seq<u8>)
    requires
        s.ok(),
        s.fits(k, v),
    ensures
        forall|e: Entry| #[trigger]
            s.with(k, v).entries().contains(e) <==> e == (k, v) || s.entries().contains(e) && e.0
                != k,
        s.with(k, v).entries().len() == s.entries().len() + (if exists|i: int|
            0 <= i < s.entries().len() && (#[trigger] s.entries()[i]).0 == k {
            0int
        } else {
            1int
        }),
{
    let es = s.entries();
    let w = s.with(k, v).entries();
    let r = rank(es, k);
    lemma_with(s, k, v);
    lemma_sorted(s);
    lemma_has_key(es, k);
    lemma_rank(es, k);
    assert forall|e: Entry| #[trigger] w.contains(e) <==> e == (k, v) || es.contains(e) && e.0
        != k by {
        if w.contains(e) {
            let i = choose|i: int| 0 <= i < w.len() && w[i] == e;
            if i != r {
                if has_key(es, k) || i < r {
                    assert(es[i] == e);
                } else {
                    assert(es[i - 1] == e);
                }
            }
        }
        assert(w[r] == (k, v));
        if es.contains(e) && e.0 != k {
            let i = choose|i: int| 0 <= i < es.len() && es[i] == e;
            if has_key(es, k) || i < r {
                assert(w[i] == e);
            } else {
                assert(w[i + 1] == e);
            }
        }
    }
}

/// A run of pairs without one of them.
proof fn lemma_removed(es: Seq<Entry>, r: int, e: Entry)
    requires
        0 <= r < es.len(),
    ensures
        es.remove(r).contains(e) ==> es.contains(e),
        es.contains(e) && e != es[r] ==> es.remove(r).contains(e),
{
    let w = es.remove(r);
    if w.contains(e) {
        let i = choose|i: int| 0 <= i < w.len() && w[i] == e;
        if i >= r {
            assert(es[i + 1] == e);
        } else {
            assert(es[i] == e);
        }
    }
    if es.contains(e) && e != es[r] {
        let i = choose|i: int| 0 <= i < es.len() && es[i] == e;
        if i > r {
            assert(w[i - 1] == e);
        } else {
            assert(w[i] == e);
        }
    }
}

/// Deleting a key leaves every pair with another key, and none with this one.
pub proof fn law_delete_pairs(s: Shape, k: Seq<u8>)
    requires
        s.ok(),
        !s.keeps(k),
    ensures
        forall|e: Entry| #[trigger]
            s.without(k).entries().contains(e) <==> s.entries().contains(e) && e.0 != k,
{
    let es = s.entries();
    let w = s.without(k).entries();
    let r = rank(es, k);
    lemma_without(s, k);
    lemma_sorted(s);
    lemma_sorted(s.without(k));
    lemma_has_key(es, k);
    assert(lookup(w, k) is None) by {
        law_delete_then_get(s, k, k);
    }
    law_found(s.without(k), k);
    assert forall|e: Entry| #[trigger] w.contains(e) <==> es.contains(e) && e.0 != k by {
        if has_key(es, k) {
            lemma_removed(es, r, e);
        }
        if w.contains(e) {
            let i = choose|i: int| 0 <= i < w.len() && w[i] == e;
            assert(w[i].0 != k);
        }
    }
}

/// One of the leaves of the tree holds these pairs.
pub open spec fn has_leaf(t: Tree, es: Seq<Entry>) -> bool
    decreases t,
{
    match t {
        Tree::Leaf { entries, .. } => entries == es,
        Tree::Internal { children, .. } => exists|i: int|
            0 <= i < children.len() && has_leaf(#[trigger] children[i], es),
    }
}

/// A key of a leaf lies in the range that the tree is reached for, and leads to the leaf.
proof fn lemma_leaf_reached(
    t: Tree,
    lb: Option<Seq<u8>>,
    ub: Option<Seq<u8>>,
    es: Seq<Entry>,
    i: int,
)
    requires
        t.ordered(lb, ub),
        t.regular(),
        has_leaf(t, es),
        0 <= i < es.len(),
    ensures
        above(es[i].0, lb),
        below(es[i].0, ub),
        t.leaf_for(es[i].0) == es,
    decreases t,
{
    let k = es[i].0;
    if let Tree::Internal { id, keys, children } = t {
        let c = choose|c: int| 0 <= c < children.len() && has_leaf(#[trigger] children[c], es);
        lemma_leaf_reached(children[c], lower(keys, lb, c), upper(keys, ub, c), es, i);
        lemma_route(keys, k);
        lemma_key_order();
        if c > 0 {
            assert(above(keys[c - 1].0, lb));
            assert forall|x: int| 0 <= x < c implies !key_lt(k, #[trigger] keys[x].0) by {
                if x < c - 1 {
                    assert(key_lt(keys[x].0, keys[c - 1].0));
                }
            }
        }
        if c < keys.len() {
            assert(below(keys[c].0, ub));
            assert forall|x: int| c <= x < keys.len() implies key_lt(k, #[trigger] keys[x].0) by {
                if x > c {
                    assert(key_lt(keys[c].0, keys[x].0));
                }
            }
        }
        let r = route(keys, k);
        if r < c {
            assert(key_lt(k, keys[r].0));
        }
        if r > c {
            assert(!key_lt(k, keys[c].0));
        }
    }
}

/// The leaf that a key leads to is one of the leaves.
proof fn lemma_leads_to_leaf(t: Tree, k: Seq<u8>, lb: Option<Seq<u8>>, ub: Option<Seq<u8>>)
    requires
        t.ordered(lb, ub),
        t.regular(),
    ensures
        has_leaf(t, t.leaf_for(k)),
    decreases t,
{
    if let Tree::Internal { id, keys, children } = t {
        let c = route(keys, k);
        lemma_route(keys, k);
        lemma_leads_to_leaf(children[c], k, lower(keys, lb, c), upper(keys, ub, c));
    }
}

/// A deletion of a key that is there is refused if a leaf below the root holds its pair alone, and
/// only then.
pub proof fn law_refusal(s: Shape, k: Seq<u8>, v: Seq<u8>)
    requires
        s.ok(),
        s.entries().contains((k, v)),
    ensures
        s.keeps(k) <==> s.tree is Internal && has_leaf(s.tree, seq![(k, v)]),
{
    let t = s.tree;
    let es = t.leaf_for(k);
    law_found(s, k);
    lemma_wf_ordered(t, None, None, t.height());
    lemma_leaf_for(t, None, None, k);
    lemma_leads_to_leaf(t, k, None, None);
    lemma_has_key(es, k);
    lemma_rank(es, k);
    assert(lookup(es, k) == Some(v));
    if s.keeps(k) {
        assert(es =~= seq![(k, v)]);
    }
    if has_leaf(t, seq![(k, v)]) {
        lemma_leaf_reached(t, None, None, seq![(k, v)], 0);
    }
}

/// A deletion of a key that is not there finds that it is not there, unless a leaf below the root
/// holds one pair or none.
pub proof fn law_missing(s: Shape, k: Seq<u8>)
    requires
        s.ok(),
        s.tree is Leaf || forall|es: Seq<Entry>| #[trigger] has_leaf(s.tree, es) ==> es.len() >= 2,
    ensures
        !s.keeps(k),
{
    let t = s.tree;
    lemma_wf_ordered(t, None, None, t.height());
    lemma_leads_to_leaf(t, k, None, None);
    assert(has_leaf(t, t.leaf_for(k)));
}

/// A leaf takes in one more pair as long as it has fewer than 64 and the bytes of all of them leave
/// room for 65 page numbers. It takes in another value of a key as long as the bytes fit in a page.
pub proof fn law_leaf_room(es: Seq<Entry>, k: Seq<u8>, v: Seq<u8>)
    ensures
        !has_key(es, k) ==> (takes_in(es, k, v) <==> es.len() < 64 && 517 + total(es) + k.len()
            + v.len() <= 4096 - 8 * 65),
        has_key(es, k) ==> (takes_in(es, k, v) <==> 517 + total(with_entry(es, k, v)) <= 4096),
{
}

/// A leaf that is split is cut in the middle, if the halves fit in a page each. Otherwise it is cut
/// where the parts do, if there is such a place.
pub proof fn law_leaf_cut(w: Seq<Entry>)
    requires
        w.len() > 0,
    ensures
        ({
            let m = w.len() as int / 2;
            517 + total(w.take(m)) <= 4096 && 517 + total(w.skip(m)) <= 4096 ==> leaf_cut(w) == m
        }),
        leaf_cut(w) < w.len() ==> 517 + total(w.take(leaf_cut(w))) <= 4096 && 517 + total(
            w.skip(leaf_cut(w)),
        ) <= 4096,
        forall|m: int|
            1 <= m < w.len() && 517 + total(#[trigger] w.take(m)) <= 4096 && 517 + total(w.skip(m))
                <= 4096 ==> leaf_cut(w) < w.len(),
{
    lemma_cut_found(w, 0, 4096);
    assert forall|m: int|
        1 <= m < w.len() && 517 + total(#[trigger] w.take(m)) <= 4096 && 517 + total(w.skip(m))
            <= 4096 implies leaf_cut(w) < w.len() by {
        assert(cut_fits(w, m, 0, 4096));
    }
}

/// An internal node that is split is cut in the middle, if the halves without the key in the middle
/// leave room for their children. Otherwise it is cut where the parts do, if there is such a place.
pub proof fn law_internal_cut(w: Seq<Entry>)
    requires
        w.len() > 2,
    ensures
        ({
            let m = w.len() as int / 2;
            517 + total(w.take(m)) <= 3576 && 517 + total(w.skip(m + 1)) <= 3576 ==> internal_cut(w)
                == m
        }),
        internal_cut(w) + 1 < w.len() ==> 517 + total(w.take(internal_cut(w))) <= 3576 && 517
            + total(w.skip(internal_cut(w) + 1)) <= 3576,
        forall|m: int|
            1 <= m && m + 1 < w.len() && 517 + total(#[trigger] w.take(m)) <= 3576 && 517 + total(
                w.skip(m + 1),
            ) <= 3576 ==> internal_cut(w) + 1 < w.len(),
{
    lemma_cut_found(w, 1, 3576);
    assert forall|m: int|
        1 <= m && m + 1 < w.len() && 517 + total(#[trigger] w.take(m)) <= 3576 && 517 + total(
            w.skip(m + 1),
        ) <= 3576 implies internal_cut(w) + 1 < w.len() by {
        assert(cut_fits(w, m, 1, 3576));
    }
}

/// There is room for every pair of a size that can be stored, as long as memory holds five pages
/// and two for each level of the tree more than were ever used.
pub proof fn law_room(s: Shape, k: Seq<u8>, v: Seq<u8>)
    requires
        s.ok(),
        1 <= k.len() <= 1024,
        v.len() <= 2048,
        (s.next + 2 * s.tree.height() + 5) * 4096 <= usize::MAX,
    ensures
        s.fits(k, v),
{
}

/// Outside a transaction nothing but memory stands in the way of a put or a deletion.
pub proof fn law_allowed(db: &Database, k: Seq<u8>, v: Seq<u8>)
    requires
        db.wf(),
        db.sound(),
        !db.in_transaction(),
        1 <= k.len() <= 1024,
        v.len() <= 2048,
        (db.shape().next + 2 * db.shape().tree.height() + 5) * 4096 <= usize::MAX,
    ensures
        db.can_put(k, v),
        db.can_delete(k),
{
    lemma_shape_ok(db.pages(), db.root());
    law_room(db.shape(), k, v);
}

/// Within a transaction nothing but memory for the pages and for the log stands in the way of a
/// put, a deletion, a commit or an abort.
pub proof fn law_allowed_in_transaction(db: &Database, k: Seq<u8>, v: Seq<u8>)
    requires
        db.wf(),
        db.sound(),
        db.in_transaction(),
        1 <= k.len() <= 1024,
        v.len() <= 2048,
        (db.shape().next + 2 * db.shape().tree.height() + 5) * 4096 <= usize::MAX,
        db.log_bytes().len() + 11 + k.len() + v.len() <= usize::MAX,
    ensures
        db.can_put(k, v),
        db.can_delete(k),
        ending_room(db.wal()),
{
    lemma_shape_ok(db.pages(), db.root());
    law_room(db.shape(), k, v);
    if let Some(w) = db.wal() {
        let rs = choose|rs: Seq<LogEntry>| holds_changes(&w, rs);
        assert(holds_changes(&w, rs));
    }
}

/// Outside a transaction nothing but memory stands in the way of an import or a compaction: there
/// has to be room for each pair when those before it have been put.
pub proof fn law_allowed_at_once(db: &Database, b: Seq<u8>)
    requires
        db.wf(),
        db.sound(),
        !db.in_transaction(),
        forall|n: int|
            0 <= n < pairs_from(b, 12).len() ==> (#[trigger] run(
                db.shape(),
                inserts_of(pairs_from(b, 12)).take(n),
            )).fits(pairs_from(b, 12)[n].0, pairs_from(b, 12)[n].1),
        forall|n: int|
            0 <= n < db.entries().len() ==> (#[trigger] run(
                empty_shape(),
                inserts_of(db.entries()).take(n),
            )).fits(db.entries()[n].0, db.entries()[n].1),
    ensures
        db.can_import(b),
        db.can_compact(),
{
    let all = pairs_from(b, 12);
    lemma_fresh_sound();
    assert forall|i: int| 0 <= i < all.len() implies db.import_room(
        #[trigger] all.take(i),
        all[i],
    ) by {
        assert(run(db.shape(), inserts_of(all).take(i)).fits(all[i].0, all[i].1));
    }
}

/// A new database holds nothing: it has the page of the metadata and that of an empty root.
pub proof fn law_new_database(db: &Database, path: Seq<char>, enable_wal: bool)
    requires
        opened(db, path, enable_wal, Seq::empty(), Seq::empty()),
    ensures
        db.sound(),
        db.entries() == Seq::<Entry>::empty(),
        db.shape().tree is Leaf,
        db.shape().free == Seq::<PageId>::empty(),
        db.shape().next == 2,
        db.root() == 1,
        meta_of(db.pages()).page_size == 4096,
        meta_of(db.pages()).version == 1,
        meta_of(db.pages()).wal_offset == 0,
        db.nothing_logged(),
        !db.in_transaction(),
{
    assert(log_ops(Seq::empty(), enable_wal) =~= Seq::<Op>::empty());
    lemma_fresh_sound();
}

/// Without a log a database is opened as its data file has it, and a log file that is there is not
/// touched.
pub proof fn law_open_without_log(db: &Database, path: Seq<char>, data: Seq<u8>, log: Seq<u8>)
    requires
        data.len() > 0,
        opened(db, path, false, data, log),
    ensures
        db.pages() == file_pages(data),
        db.wal() is None,
        log_after(log, db.requests()) == log,
        data_after(data, db.requests()) == db.file_bytes(),
{
}

/// The verification counts the records of the log: none outside a transaction, and within one a
/// record for each change.
pub proof fn law_records_counted(db: &Database, rs: Seq<LogEntry>)
    requires
        db.wf(),
        db.wal() is Some,
        all_fit(rs),
        db.log_bytes() == log_bytes(rs),
    ensures
        record_count(db.wal()) == rs.len(),
{
    let w = db.wal()->0;
    if db.in_transaction() {
        let qs = choose|qs: Seq<LogEntry>| holds_changes(&w, qs);
        assert(holds_changes(&w, qs));
    }
    law_log_round_trip(rs, Seq::empty());
    assert(log_bytes(rs) + Seq::<u8>::empty() =~= log_bytes(rs));
}

/// A database can be opened again from its files, with a log or without, at any time. Without
/// files a new one can be.
pub proof fn law_can_open(db: &Database, enable_wal: bool)
    requires
        db.wf(),
    ensures
        openable(db.file_bytes(), db.log_bytes(), enable_wal),
        openable(Seq::empty(), Seq::empty(), enable_wal),
{
    let log = db.log_bytes();
    lemma_logs_no_commit(db, log.len() as int);
    assert(log.take(log.len() as int) =~= log);
    assert(log_ops(Seq::empty(), true) =~= Seq::<Op>::empty());
    lemma_fresh_sound();
}

/// A log that a crash left behind the commit of a transaction can be done on opening, if there was
/// room for the transaction.
pub proof fn law_can_replay(before: &Database, xs: Seq<Op>, tail: Seq<u8>)
    requires
        before.wf(),
        before.sound(),
        before.pages() == file_pages(before.file_bytes()),
        forall|i: int| 0 <= i < xs.len() ==> tellable(#[trigger] xs[i]),
        forall|n: int|
            0 <= n < xs.len() ==> match xs[n] {
                Op::Insert(k, v) => (#[trigger] run(before.shape(), xs.take(n))).fits(k, v),
                Op::Delete(k) => true,
            },
        tail.len() < 11,
    ensures
        openable(
            before.file_bytes(),
            log_bytes(records_of(xs).push(commit_record())) + tail,
            true,
        ),
{
    let rs = records_of(xs).push(commit_record());
    law_replay_transaction(xs, Seq::empty(), tail);
    assert(rs + records_of(Seq::empty()) =~= rs);
    lemma_sound(before.pages(), before.root());
    lemma_valid_not_empty(before.file_bytes());
}

/// Metadata are those of a database if they bear its mark and version.
pub proof fn law_valid(m: MetaData)
    ensures
        m.valid() <==> m.magic == 0x544F4B494D4F4442 && m.version == 1,
{
}

/// The statistics of a sound database of which no page was lost count its nodes, its free pages and
/// the page of the metadata.
pub proof fn law_stats(db: &Database, st: Stats)
    requires
        db.sound(),
        tight(db.shape()),
        st.are_of(meta_of(db.pages())),
    ensures
        st.page_count == db.shape().tree.node_count() + db.shape().free.len() + 1,
        st.db_size == st.page_count * st.page_size,
{
    lemma_sound(db.pages(), db.root());
}

/// The page that is handed out is the first free one, or the first that was never used where none
/// is free.
pub proof fn law_allocate(pages: Pages, next: PageId)
    ensures
        next >= 2 && meta_of(pages).freelist_page != 0xffff_ffff_ffff_ffff ==> allocated(
            pages,
            next,
        ) == meta_of(pages).freelist_page,
        next < 2 || meta_of(pages).freelist_page == 0xffff_ffff_ffff_ffff ==> allocated(
            pages,
            next,
        ) == next,
{
}

proof fn lemma_committed_join(rs: Seq<LogEntry>, qs: Seq<LogEntry>)
    requires
        rs.len() > 0 ==> !is_change(rs.last()),
    ensures
        committed(rs + qs) == committed(rs) + committed(qs),
        open_ops(rs + qs) == open_ops(qs),
    decreases qs.len(),
{
    if qs.len() == 0 {
        assert(rs + qs =~= rs);
        assert(committed(rs) + committed(qs) =~= committed(rs));
    } else {
        let ps = qs.drop_last();
        lemma_committed_join(rs, ps);
        assert((rs + qs).drop_last() =~= rs + ps);
        assert((rs + qs).last() == qs.last());
        assert(committed(rs) + (committed(ps) + open_ops(ps)) =~= committed(rs) + committed(ps)
            + open_ops(ps));
    }
}

/// A log that goes on behind the end of a transaction does what its first part does, and then what
/// the second does.
pub proof fn law_logs_join(rs: Seq<LogEntry>, qs: Seq<LogEntry>, tail: Seq<u8>)
    requires
        all_fit(rs),
        all_fit(qs),
        all_fit(rs + qs),
        rs.len() > 0,
        !is_change(rs.last()),
        tail.len() < 11,
    ensures
        log_ops(log_bytes(rs + qs) + tail, true) == log_ops(log_bytes(rs), true) + log_ops(
            log_bytes(qs) + tail,
            true,
        ),
{
    law_log_round_trip(rs + qs, tail);
    law_log_round_trip(rs, Seq::empty());
    law_log_round_trip(qs, tail);
    assert(log_bytes(rs) + Seq::<u8>::empty() =~= log_bytes(rs));
    assert(read_back(rs + qs) =~= read_back(rs) + read_back(qs));
    assert(read_back(rs).last() == rs.last().read_back());
    lemma_committed_join(read_back(rs), read_back(qs));
}

/// The change concerns the key.
pub open spec fn concerns(x: Op, k: Seq<u8>) -> bool {
    match x {
        Op::Insert(q, _) => q == k,
        Op::Delete(q) => q == k,
    }
}

proof fn lemma_last_counts(s: Shape, xs: Seq<Op>, n: int, k: Seq<u8>)
    requires
        -1 <= n < xs.len(),
        n >= 0 ==> concerns(xs[n], k),
        forall|m: int| n < m < xs.len() ==> !concerns(#[trigger] xs[m], k),
    ensures
        n < 0 ==> fate(s, xs, k) is Same,
        n >= 0 ==> match xs[n] {
            Op::Insert(_, v) => fate(s, xs, k) == Fate::Bound(v),
            Op::Delete(_) => !refused(run(s, xs.take(n)), xs[n]) ==> fate(s, xs, k) is Gone,
        },
    decreases xs.len(),
{
    if xs.len() > 0 {
        let qs = xs.drop_last();
        if n < xs.len() - 1 {
            assert(!concerns(xs[xs.len() - 1], k));
            if n >= 0 {
                assert(qs[n] == xs[n]);
                assert(qs.take(n) =~= xs.take(n));
            }
            assert forall|m: int| n < m < qs.len() implies !concerns(#[trigger] qs[m], k) by {
                assert(qs[m] == xs[m]);
            }
            lemma_last_counts(s, qs, n, k);
        } else {
            assert(xs.take(n) =~= qs);
        }
    }
}

/// After a crash behind the commit of a transaction the last change that concerns a key counts: if
/// it bound the key, the key is found with that value, and if it took the key out and was not
/// refused, the key is not found. A key that none of them concerns is found as before.
pub proof fn law_replayed_key(
    before: &Database,
    again: &Database,
    path: Seq<char>,
    xs: Seq<Op>,
    tail: Seq<u8>,
    n: int,
    k: Seq<u8>,
)
    requires
        before.wf(),
        before.sound(),
        before.pages() == file_pages(before.file_bytes()),
        forall|i: int| 0 <= i < xs.len() ==> tellable(#[trigger] xs[i]),
        tail.len() < 11,
        -1 <= n < xs.len(),
        n >= 0 ==> concerns(xs[n], k),
        forall|m: int| n < m < xs.len() ==> !concerns(#[trigger] xs[m], k),
        ({
            let log = log_bytes(records_of(xs).push(commit_record())) + tail;
            &&& openable(before.file_bytes(), log, true)
            &&& opened(again, path, true, before.file_bytes(), log)
        }),
    ensures
        n < 0 ==> lookup(again.entries(), k) == lookup(before.entries(), k),
        n >= 0 ==> match xs[n] {
            Op::Insert(_, v) => lookup(again.entries(), k) == Some(v),
            Op::Delete(_) => !refused(run(before.shape(), xs.take(n)), xs[n]) ==> lookup(
                again.entries(),
                k,
            ) is None,
        },
        again.nothing_logged(),
{
    let s = before.shape();
    let rs = records_of(xs).push(commit_record());
    lemma_shape_ok(before.pages(), before.root());
    lemma_sound(before.pages(), before.root());
    lemma_valid_not_empty(before.file_bytes());
    law_replay_transaction(xs, Seq::empty(), tail);
    assert(rs + records_of(Seq::empty()) =~= rs);
    lemma_last_counts(s, xs, n, k);
    if xs.len() > 0 {
        law_fate(s, xs, k);
        law_found(run(s, xs), k);
    }
    law_found(s, k);
}

/// What one database exports and another imports: a key of the first is found in the second with
/// the value that it has in the first, and every other key is found as before.
pub proof fn law_imported_key(
    from: &Database,
    into: &Database,
    after: &Database,
    r: Result<u64>,
    k: Seq<u8>,
)
    requires
        from.sound(),
        into.sound(),
        into.can_import(export_bytes(from.entries())),
        imported(into, after, export_bytes(from.entries()), r),
    ensures
        r matches Ok(n) && n == from.entries().len(),
        lookup(after.entries(), k) == (match lookup(from.entries(), k) {
            Some(v) => Some(v),
            None => lookup(into.entries(), k),
        }),
{
    let es = from.entries();
    let ops = inserts_of(es);
    let s = into.shape();
    let r0 = rank(es, k);
    law_export_import(from, into, after, r);
    lemma_shape_ok(into.pages(), into.root());
    lemma_shape_ok(from.pages(), from.root());
    lemma_all_acceptable(from.shape());
    law_export_round_trip(es);
    lemma_sorted(from.shape());
    lemma_has_key(es, k);
    lemma_rank(es, k);
    if es.len() > 0 {
        let n = if has_key(es, k) {
            r0
        } else {
            -1
        };
        assert forall|m: int| n < m < ops.len() implies !concerns(#[trigger] ops[m], k) by {
            assert(ops[m] == Op::Insert(es[m].0, es[m].1));
            if es[m].0 == k {
                assert(m == r0);
            }
        }
        if n >= 0 {
            assert(ops[n] == Op::Insert(es[n].0, es[n].1));
        }
        lemma_last_counts(s, ops, n, k);
        law_fate(s, ops, k);
        law_found(after.shape(), k);
        law_found(s, k);
    } else {
        assert(!has_key(es, k));
    }
}

/// The keys of all nodes of a tree are those of its pairs, and one for each leaf but the first.
proof fn lemma_keys_of_nodes(t: Tree)
    requires
        t.regular(),
    ensures
        t.key_count() == t.entries().len() + t.leaf_count() - 1,
    decreases
        t,
        (if t is Internal {
            t->children.len() + 1
        } else {
            0
        }),
{
    if let Tree::Internal { id, keys, children } = t {
        lemma_keys_of_forest(t, children.len());
        assert(children.take(children.len() as int) =~= children);
    }
}

proof fn lemma_keys_of_forest(t: Tree, n: nat)
    requires
        t.regular(),
        t is Internal,
        n <= t->children.len(),
    ensures
        ({
            let cs = t->children.take(n as int);
            forest_keys(cs) == forest_entries(cs).len() + forest_leaves(cs) - n
        }),
    decreases t, n,
{
    let cs = t->children.take(n as int);
    if n > 0 {
        let m = (n - 1) as nat;
        lemma_keys_of_forest(t, m);
        assert(cs.drop_last() =~= t->children.take(m as int));
        assert(cs.last() == t->children[m as int]);
        lemma_keys_of_nodes(t->children[m as int]);
    } else {
        assert(cs =~= Seq::<Tree>::empty());
    }
}

/// The inspection and the verification of a sound database agree with each other and with what it
/// holds.
pub proof fn law_inspected(db: &Database, st: InspectStats, vs: VerifyStats)
    requires
        db.wf(),
        db.sound(),
        st.are_of(meta_of(db.pages()), db.shape().free, db.shape().tree),
        vs.checked_tree_pages == db.shape().tree.node_count(),
        vs.checked_entries == db.shape().tree.key_count(),
    ensures
        st.entry_count == db.entries().len(),
        st.node_count == st.leaf_count + st.internal_count,
        st.internal_count == 0 <==> st.tree_height == 1,
        st.tree_height == db.shape().tree.height() + 1,
        st.page_count == st.last_page_id + 1,
        st.db_size == st.page_count * st.page_size,
        st.page_count >= st.node_count + 1,
        tight(db.shape()) ==> st.page_count == st.node_count + st.freelist_page_count + 1,
        st.freelist_page == 0xffff_ffff_ffff_ffff <==> st.freelist_page_count == 0,
        st.root_page_id == db.shape().tree.id(),
        vs.checked_tree_pages == st.node_count,
        vs.checked_entries == st.entry_count + st.leaf_count - 1,
{
    let t = db.shape().tree;
    lemma_sound(db.pages(), db.root());
    lemma_shape_ok(db.pages(), db.root());
    lemma_wf_ordered(t, None, None, t.height());
    law_levels(t, None, None, t.height());
    law_counts(db.pages(), db.root());
    lemma_keys_of_nodes(t);
    lemma_page_list(t);
    let n = (db.shape().next - 1) as nat;
    assert(chain(db.pages(), meta_of(db.pages()).freelist_page, db.shape().free));
    let list = page_list(t);
    let shifted = Seq::new(list.len(), |i: int| (list[i] - 1) as PageId);
    assert forall|i: int| 0 <= i < list.len() implies 1 <= #[trigger] list[i] <= n by {
        assert(t.owns(list[i]));
    }
    assert(shifted.no_duplicates()) by {
        assert forall|i: int, j: int|
            0 <= i < shifted.len() && 0 <= j < shifted.len() && i != j implies shifted[i]
            != shifted[j] by {
            assert(list[i] != list[j]);
            assert(1 <= list[i] <= n && 1 <= list[j] <= n);
        }
    }
    assert forall|i: int| 0 <= i < shifted.len() implies #[trigger] shifted[i] < n by {
        assert(1 <= list[i] <= n);
    }
    lemma_distinct_bound(shifted, n);
    if t is Internal {
        assert(t.height() > 0);
    }
    lemma_internals_above(t);
}

/// A tree of more than one node has an internal one.
proof fn lemma_internals_above(t: Tree)
    requires
        t.regular(),
        t.wf(None, None, t.height()),
    ensures
        t.node_count() == t.leaf_count() <==> t is Leaf,
{
    if let Tree::Internal { id, keys, children } = t {
        lemma_forest_internals(children);
    }
}

proof fn lemma_forest_internals(cs: Seq<Tree>)
    ensures
        forest_leaves(cs) <= forest_nodes(cs),
    decreases cs,
{
    if cs.len() > 0 {
        lemma_forest_internals(cs.drop_last());
        lemma_node_internals(cs.last());
    }
}

proof fn lemma_node_internals(t: Tree)
    ensures
        t.leaf_count() <= t.node_count(),
    decreases t,
{
    if let Tree::Internal { id, keys, children } = t {
        lemma_forest_internals(children);
    }
}

/// A page that is freed is the first of the free pages, and leads to the one that was the first
/// before; all other pages stay as they are.
pub proof fn law_freed(pages: Pages, id: PageId, x: PageId)
    requires
        id != 0,
        pages[0].len() == 4096,
        x != 0,
        x != id,
    ensures
        meta_of(after_free(pages, id)).freelist_page == id,
        next_free(after_free(pages, id), id) == meta_of(pages).freelist_page,
        same_settings(meta_of(pages), meta_of(after_free(pages, id))),
        meta_of(after_free(pages, id)).root_page == meta_of(pages).root_page,
        meta_of(after_free(pages, id)).last_page_id == meta_of(pages).last_page_id,
        after_free(pages, id)[x] == pages[x],
{
    let m = meta_of(pages);
    let z = zeros(4096);
    let link = splice(z, 0, enc64(m.freelist_page));
    let p1 = pages.insert(id, link);
    assert(p1[0] == pages[0]);
    let m1 = MetaData { freelist_page: id, ..m };
    lemma_with_meta(p1, m1);
    lemma_enc64(m.freelist_page);
    assert forall|j: int| 0 <= j < 8 implies #[trigger] link[0 + j] == enc64(m.freelist_page)[0
        + j] by {}
    lemma_le_window(link, 0, enc64(m.freelist_page), 0, 8);
}

/// Freeing a page puts it before the others in the list of free pages.
pub proof fn law_free_list(pages: Pages, id: PageId, list: Seq<PageId>)
    requires
        pages[0].len() == 4096,
        (id + 1) * 4096 <= usize::MAX,
        id != 0,
        !list.contains(id),
        !list.contains(0),
        chain(pages, meta_of(pages).freelist_page, list),
    ensures
        chain(after_free(pages, id), meta_of(after_free(pages, id)).freelist_page, seq![id] + list),
{
    let q = after_free(pages, id);
    let all = seq![id] + list;
    law_freed(
        pages,
        id,
        if id == 1 {
            2
        } else {
            1
        },
    );
    assert forall|i: int| 0 <= i < list.len() implies pages[#[trigger] list[i]] == q[list[i]] by {
        assert(list.contains(list[i]));
        law_freed(pages, id, list[i]);
    }
    lemma_chain_frame(pages, q, meta_of(pages).freelist_page, list);
    assert(all.drop_first() =~= list);
}

/// A log is rejected on opening if it commits a put of a size that cannot be stored, and only then.
pub proof fn law_acceptable(xs: Seq<Op>)
    ensures
        all_acceptable(xs) <==> forall|i: int|
            0 <= i < xs.len() ==> match #[trigger] xs[i] {
                Op::Insert(k, v) => 1 <= k.len() <= 1024 && v.len() <= 2048,
                Op::Delete(_) => true,
            },
{
    if all_acceptable(xs) {
        assert forall|i: int| 0 <= i < xs.len() implies match #[trigger] xs[i] {
            Op::Insert(k, v) => 1 <= k.len() <= 1024 && v.len() <= 2048,
            Op::Delete(_) => true,
        } by {
            assert(acceptable(xs[i]));
        }
    }
}

/// A database stays one when a page that its tree does not use is freed: the tree is the same, and
/// the page is the first of those that are free.
pub proof fn law_freed_sound(pages: Pages, root: PageId, id: PageId)
    requires
        sound(pages, root),
        pages[0].len() == 4096,
        0 < id < shape_of(pages, root).next,
        !shape_of(pages, root).tree.owns(id),
        !shape_of(pages, root).free.contains(id),
    ensures
        sound(after_free(pages, id), root),
        shape_of(after_free(pages, id), root) == (Shape {
            free: seq![id] + shape_of(pages, root).free,
            ..shape_of(pages, root)
        }),
{
    let s = shape_of(pages, root);
    let q = after_free(pages, id);
    let t = s.tree;
    let all = seq![id] + s.free;
    lemma_sound(pages, root);
    if s.free.contains(0) {
        let i = choose|i: int| 0 <= i < s.free.len() && s.free[i] == 0;
        assert(0 < s.free[i]);
    }
    law_free_list(pages, id, s.free);
    law_freed(
        pages,
        id,
        if id == 1 {
            2
        } else {
            1
        },
    );
    assert forall|x: PageId| #[trigger] t.owns(x) implies pages[x] == q[x] by {
        law_freed(pages, id, x);
    }
    lemma_held_frame(t, pages, q);
    assert forall|i: int, j: int| 0 <= i < all.len() && 0 <= j < all.len() && i != j implies all[i]
        != all[j] by {
        if i == 0 {
            assert(s.free.contains(s.free[j - 1]));
        } else if j == 0 {
            assert(s.free.contains(s.free[i - 1]));
        } else {
            assert(s.free[i - 1] != s.free[j - 1]);
        }
    }
    assert forall|i: int| 0 <= i < all.len() implies 0 < #[trigger] all[i] < s.next && !t.owns(
        all[i],
    ) by {
        if i > 0 {
            assert(all[i] == s.free[i - 1]);
        }
    }
    assert(sound_as(q, root, t, t.height(), all));
    lemma_sound_as(q, root, t, t.height(), all);
}

/// The keys of an internal node are at most 64, and leave room for 65 page numbers.
pub proof fn law_internal_room(keys: Seq<Entry>)
    ensures
        roomy(keys) <==> keys.len() <= 64 && 517 + total(keys) <= 4096 - 8 * 65,
{
}

/// What becomes of a leaf when a pair is put in it: it takes the pair in, or it is cut with the
/// pair in it, or, where two pages do not hold it wherever it is cut, it is parted between the keys
/// that come before the new one and the others.
pub proof fn law_leaf_grows(
    id: PageId,
    es: Seq<Entry>,
    k: Seq<u8>,
    v: Seq<u8>,
    right: PageId,
    r: int,
)
    requires
        sorted(es),
        0 <= r <= es.len(),
        forall|i: int| 0 <= i < r ==> key_lt(#[trigger] es[i].0, k),
        forall|i: int| r <= i < es.len() ==> !key_lt(#[trigger] es[i].0, k),
    ensures
        ({
            let w = with_entry(es, k, v);
            grow_leaf(id, es, k, v, right) == (if takes_in(es, k, v) {
                Grown::Whole(Tree::Leaf { id, entries: w })
            } else if leaf_cut(w) < w.len() {
                Grown::Split(
                    Tree::Leaf { id, entries: w.take(leaf_cut(w)) },
                    w[leaf_cut(w)].0,
                    Tree::Leaf { id: right, entries: w.skip(leaf_cut(w)) },
                )
            } else {
                Grown::Split(
                    Tree::Leaf { id, entries: es.take(r) },
                    es[r].0,
                    Tree::Leaf { id: right, entries: es.skip(r) },
                )
            })
        }),
{
    lemma_rank_is(es, k, r);
}

} // verus!
