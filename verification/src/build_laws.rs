//! What holds of every database that was built by changes, was compacted or took in an export.
use vstd::arithmetic::power::pow;
use vstd::prelude::*;
use crate::bytes::{key_lt, lemma_key_order};
use crate::constants::ROOT_PAGE_ID;
use crate::counts::law_levels;
use crate::database::Database;
use crate::effects::imported;
use crate::entries::{
    has_key, lemma_map_lookup, lemma_rank, lookup, size, sorted, with_entry, Entry,
};
use crate::error::Result;
use crate::export::{export_bytes, law_export_round_trip};
use crate::growth::{
    all_small, dense, law_fan_out, lemma_internals, lemma_once_tight, lemma_with_dense,
    lemma_with_same, lemma_without_tight, tight, SMALL_PAIR,
};
use crate::laws::{
    law_compact_preserves, law_put_then_get, law_puts_overlay, lemma_all_acceptable,
    lemma_run_start, overlaid,
};
use crate::pager::fresh_pages;
use crate::replay::{acceptable, all_acceptable, has_room, inserts_of, run, run_fits, Op};
use crate::shape::{
    empty_shape, lemma_fresh_sound, lemma_once, lemma_shape_ok, lemma_sorted, lemma_with,
    lemma_without, storable, Shape,
};
use crate::tree_laws::{lemma_leaf_for, lemma_wf_ordered};

verus! {

proof fn lemma_empty_ok()
    ensures
        empty_shape().ok(),
        tight(empty_shape()),
        dense(empty_shape().tree, true),
        empty_shape().entries() == Seq::<Entry>::empty(),
{
    lemma_fresh_sound();
    lemma_shape_ok(fresh_pages(), ROOT_PAGE_ID);
}

proof fn lemma_with_tight(s: Shape, k: Seq<u8>, v: Seq<u8>)
    requires
        s.ok(),
        s.fits(k, v),
        tight(s),
    ensures
        tight(s.with(k, v)),
{
    reveal(Shape::with);
    lemma_once(s, k, v);
    lemma_once_tight(s, k, v);
    if s.tree.parts(k, v) {
        lemma_once_tight(s.once(k, v), k, v);
    }
}

/// A database stays in order whatever is changed in it, and no page is lost: each one is that of
/// the metadata, a node of the tree, or free.
pub proof fn law_no_page_lost(s: Shape, ops: Seq<Op>)
    requires
        s.ok(),
        all_acceptable(ops),
        run_fits(s, ops),
    ensures
        run(s, ops).ok(),
        tight(s) ==> tight(run(s, ops)),
    decreases ops.len(),
{
    if ops.len() > 0 {
        let n = ops.len() - 1;
        lemma_run_start(s, ops, n);
        assert(ops.take(n) =~= ops.drop_last());
        assert(ops.take(n + 1) =~= ops);
        law_no_page_lost(s, ops.drop_last());
        let now = run(s, ops.take(n));
        match ops[n] {
            Op::Insert(k, v) => {
                assert(has_room(now, ops[n]));
                lemma_with(now, k, v);
                if tight(s) {
                    lemma_with_tight(now, k, v);
                }
            },
            Op::Delete(k) => {
                lemma_without(now, k);
                if tight(s) {
                    lemma_without_tight(now, k);
                }
            },
        }
    }
}

/// Every pair of a size that can be stored has room in every database that was built by changes,
/// as long as memory holds the pages. The key is found with the value, every other key is found as
/// before, and the pairs are those from before with this one in its place.
pub proof fn law_every_pair_has_room(ops: Seq<Op>, k: Seq<u8>, v: Seq<u8>, q: Seq<u8>)
    requires
        all_acceptable(ops),
        run_fits(empty_shape(), ops),
        storable(k, v),
        ({
            let s = run(empty_shape(), ops);
            s.has_memory(2 * s.tree.height() + 5)
        }),
    ensures
        ({
            let s = run(empty_shape(), ops);
            &&& s.fits(k, v)
            &&& s.with(k, v).ok()
            &&& s.with(k, v).entries() == with_entry(s.entries(), k, v)
            &&& s.with(k, v).entries().len() == s.entries().len() + if has_key(s.entries(), k) {
                0nat
            } else {
                1nat
            }
            &&& lookup(s.with(k, v).entries(), q) == (if q == k {
                Some(v)
            } else {
                lookup(s.entries(), q)
            })
        }),
{
    let s = run(empty_shape(), ops);
    lemma_empty_ok();
    law_no_page_lost(empty_shape(), ops);
    lemma_with(s, k, v);
    lemma_sorted(s);
    lemma_rank(s.entries(), k);
    law_put_then_get(s, k, v, q);
}

/// A database that was built by putting small pairs, and nothing else, has room for each of them
/// without a leaf being parted, and its nodes below the root are at least half full.
proof fn lemma_built(es: Seq<Entry>)
    requires
        all_acceptable(inserts_of(es)),
        run_fits(empty_shape(), inserts_of(es)),
        all_small(es),
    ensures
        run(empty_shape(), inserts_of(es)).ok(),
        dense(run(empty_shape(), inserts_of(es)).tree, true),
    decreases es.len(),
{
    let ops = inserts_of(es);
    lemma_empty_ok();
    if es.len() > 0 {
        let n = es.len() - 1;
        let qs = es.drop_last();
        let e = es[n];
        lemma_run_start(empty_shape(), ops, n);
        assert(ops.take(n) =~= inserts_of(qs));
        assert(ops.drop_last() =~= inserts_of(qs));
        assert(ops.take(n + 1) =~= ops);
        assert forall|i: int| 0 <= i < qs.len() implies size(#[trigger] qs[i])
            <= SMALL_PAIR by {
            assert(qs[i] == es[i]);
        }
        lemma_built(qs);
        let now = run(empty_shape(), inserts_of(qs));
        assert(has_room(run(empty_shape(), ops.take(n)), ops[n]));
        assert(size(e) <= SMALL_PAIR);
        lemma_with(now, e.0, e.1);
        lemma_with_dense(now, e.0, e.1);
    } else {
        assert(ops =~= Seq::<Op>::empty());
    }
}

/// The tree of a database that was built by putting pairs of at most 47 bytes: all leaves lie
/// equally deep, there are internal nodes where there is more than one level, and the pairs
/// multiply by 33 with each further level. So a lookup, which visits one page on each level, is
/// logarithmic in the number of pairs.
pub proof fn law_small_pairs(es: Seq<Entry>)
    requires
        all_acceptable(inserts_of(es)),
        run_fits(empty_shape(), inserts_of(es)),
        all_small(es),
    ensures
        ({
            let t = run(empty_shape(), inserts_of(es)).tree;
            &&& t.wf(None, None, (t.depth() - 1) as nat)
            &&& t.depth() == 1 <==> t.node_count() == t.leaf_count()
            &&& t.depth() >= 2 ==> t.entries().len() >= 64 * pow(33, (t.depth() - 2) as nat)
        }),
{
    let s = run(empty_shape(), inserts_of(es));
    let t = s.tree;
    let h = t.height();
    lemma_built(es);
    law_levels(t, None, None, h);
    lemma_internals(t, None, None, h);
    law_fan_out(t, h);
}

/// Compacting leaves one page for each node of the tree and one for the metadata.
pub proof fn law_compact_pages(before: &Database, after: &Database)
    requires
        before.sound(),
        before.can_compact(),
        after.shape() == run(empty_shape(), inserts_of(before.entries())),
    ensures
        after.shape().next == after.shape().tree.node_count() + 1,
{
    law_compact_preserves(before, after);
    lemma_empty_ok();
    lemma_fresh_sound();
    if inserts_of(before.entries()).len() > 0 {
        law_no_page_lost(empty_shape(), inserts_of(before.entries()));
    }
}

/// A compacted database can be compacted again, and that changes nothing.
pub proof fn law_compact_again(before: &Database, after: &Database, again: &Database)
    requires
        before.sound(),
        before.can_compact(),
        after.sound(),
        after.shape() == run(empty_shape(), inserts_of(before.entries())),
        again.shape() == run(empty_shape(), inserts_of(after.entries())),
    ensures
        after.can_compact(),
        again.shape() == after.shape(),
        again.entries() == before.entries(),
{
    law_compact_preserves(before, after);
}

/// A sorted run of pairs overlays each of its keys with its value.
proof fn lemma_overlaid_sorted(m: Map<Seq<u8>, Seq<u8>>, es: Seq<Entry>, i: int)
    requires
        sorted(es),
        0 <= i < es.len(),
    ensures
        overlaid(m, es).dom().contains(es[i].0),
        overlaid(m, es)[es[i].0] == es[i].1,
    decreases es.len(),
{
    let n = es.len() - 1;
    if i < n {
        let qs = es.drop_last();
        assert(sorted(qs)) by {
            assert forall|a: int, b: int| 0 <= a < b < qs.len() implies key_lt(
                #[trigger] qs[a].0,
                #[trigger] qs[b].0,
            ) by {
                assert(key_lt(es[a].0, es[b].0));
            }
        }
        lemma_overlaid_sorted(m, qs, i);
        assert(qs[i] == es[i]);
        assert(key_lt(es[i].0, es[n].0));
        lemma_key_order();
    }
}

/// Putting pairs that the database holds already changes nothing.
proof fn lemma_puts_same(s: Shape, es: Seq<Entry>)
    requires
        s.ok(),
        all_acceptable(inserts_of(es)),
        s.has_memory(2 * s.tree.height() + 5),
        forall|i: int|
            0 <= i < es.len() ==> lookup(s.entries(), (#[trigger] es[i]).0) == Some(es[i].1),
    ensures
        run(s, inserts_of(es)) == s,
        run_fits(s, inserts_of(es)),
{
    let ops = inserts_of(es);
    lemma_wf_ordered(s.tree, None, None, s.tree.height());
    assert forall|n: int| 0 <= n <= ops.len() implies #[trigger] run(s, ops.take(n)) == s by {
        lemma_puts_same_to(s, es, n);
    }
    assert(ops.take(ops.len() as int) =~= ops);
    assert(run(s, ops.take(ops.len() as int)) == s);
    assert forall|n: int|
        0 <= n < ops.len() && all_acceptable(ops.take(n + 1)) implies has_room(
        #[trigger] run(s, ops.take(n)),
        ops[n],
    ) by {
        assert(acceptable(ops[n]));
    }
}

proof fn lemma_puts_same_to(s: Shape, es: Seq<Entry>, n: int)
    requires
        s.ok(),
        s.tree.ordered(None, None),
        s.tree.regular(),
        all_acceptable(inserts_of(es)),
        forall|i: int|
            0 <= i < es.len() ==> lookup(s.entries(), (#[trigger] es[i]).0) == Some(es[i].1),
        0 <= n <= es.len(),
    ensures
        run(s, inserts_of(es).take(n)) == s,
    decreases n,
{
    let ops = inserts_of(es);
    if n > 0 {
        lemma_puts_same_to(s, es, n - 1);
        assert(ops.take(n).drop_last() =~= ops.take(n - 1));
        assert(ops.take(n).last() == ops[n - 1]);
        assert(acceptable(ops[n - 1]));
        let e = es[n - 1];
        lemma_leaf_for(s.tree, None, None, e.0);
        lemma_with_same(s, e.0, e.1);
    }
}

/// Putting the same sorted pairs a second time has room and changes nothing.
pub proof fn law_puts_again(s: Shape, es: Seq<Entry>)
    requires
        s.ok(),
        sorted(es),
        all_acceptable(inserts_of(es)),
        run_fits(s, inserts_of(es)),
        ({
            let t = run(s, inserts_of(es));
            t.has_memory(2 * t.tree.height() + 5)
        }),
    ensures
        run_fits(run(s, inserts_of(es)), inserts_of(es)),
        run(run(s, inserts_of(es)), inserts_of(es)) == run(s, inserts_of(es)),
{
    let t = run(s, inserts_of(es));
    law_puts_overlay(s, es);
    assert forall|i: int| 0 <= i < es.len() implies lookup(t.entries(), (#[trigger] es[i]).0)
        == Some(es[i].1) by {
        lemma_overlaid_sorted(s.map(), es, i);
        lemma_map_lookup(t.entries(), es[i].0);
    }
    lemma_puts_same(t, es);
}

/// Importing the same export a second time changes nothing.
pub proof fn law_import_again(
    from: &Database,
    into: &Database,
    after: &Database,
    again: &Database,
    r1: Result<u64>,
    r2: Result<u64>,
)
    requires
        from.sound(),
        into.sound(),
        into.can_import(export_bytes(from.entries())),
        imported(into, after, export_bytes(from.entries()), r1),
        after.can_import(export_bytes(from.entries())),
        imported(after, again, export_bytes(from.entries()), r2),
    ensures
        r2 == r1,
        again.shape() == after.shape(),
{
    let es = from.entries();
    let ops = inserts_of(es);
    lemma_shape_ok(from.pages(), from.root());
    lemma_shape_ok(into.pages(), into.root());
    lemma_all_acceptable(from.shape());
    law_export_round_trip(es);
    lemma_sorted(from.shape());
    if es.len() > 0 {
        let t = after.shape();
        assert(ops.take(0) =~= Seq::<Op>::empty());
        assert(all_acceptable(ops.take(1))) by {
            assert(acceptable(ops[0]));
        }
        assert(has_room(run(t, ops.take(0)), ops[0]));
        law_puts_again(into.shape(), es);
    }
}

} // verus!
