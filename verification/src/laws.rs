//! What holds of the database as a whole, over several calls.
use vstd::prelude::*;
use crate::btree_walk::countable;
use crate::bytes::{key_lt, lemma_enc64, lemma_key_order, lemma_le_window};
use crate::constants::{
    MetaData, PageId, WalRecordType, INVALID_PAGE_ID, META_PAGE_ID, PAGE_SIZE, ROOT_PAGE_ID,
    WAL_HEADER_SIZE,
};
use crate::counts::law_counts;
use crate::database::Database;
use crate::effects::{
    committing, holds_changes, imported, lemma_valid_not_empty, log_ops, logging, opened, sized,
    start_pages, valid_key,
};
use crate::entries::{
    has_key, lemma_has_key, lemma_map_lookup, lemma_rank, lemma_rank_is, lookup, rank, sorted,
    with_entry, Entry,
};
use crate::error::Result;
use crate::export::{all_storable, export_bytes, law_export_round_trip};
use crate::pager::{
    after_allocate, after_free, allocated, file_pages, fresh_pages, has_free_list, lemma_with_meta,
    meta_of, next_free, Pager, Pages,
};
use crate::replay::{
    acceptable, all_acceptable, committed, has_commit, has_room, inserts_of, is_change, op_of,
    open_ops, run, run_fits, step, Op,
};
use crate::requests::{lemma_after_changes, log_after};
use crate::shape::{
    empty_shape, lemma_fresh_sound, lemma_shape_ok, lemma_sorted, lemma_with, lemma_without,
    shape_of, storable, Shape,
};
use crate::storage::{changed_all, written, Change};
use crate::store::{has_tree, lemma_sound, sound, tree_of};
use crate::tree_laws::{lemma_entries_bounded, lemma_wf_ordered};
use crate::wal::{abort_record, commit_record, delete_record, insert_record, read_from, LogEntry};
use crate::wal_laws::{
    all_fit, holds_log, law_log_round_trip, law_truncated_log, lemma_joins_log, lemma_written_end,
    log_bytes, read_back,
};

verus! {

/// A key that was put is found with its value, and every other key is found as before.
pub proof fn law_put_then_get(s: Shape, k: Seq<u8>, v: Seq<u8>, q: Seq<u8>)
    requires
        s.ok(),
        s.fits(k, v),
    ensures
        lookup(s.with(k, v).entries(), q) == (if q == k {
            Some(v)
        } else {
            lookup(s.entries(), q)
        }),
{
    lemma_with(s, k, v);
    lemma_map_lookup(s.with(k, v).entries(), q);
    lemma_map_lookup(s.entries(), q);
}

/// A key that was deleted is not found, and every other key is found as before. The last key of a
/// leaf below the root is not deleted.
pub proof fn law_delete_then_get(s: Shape, k: Seq<u8>, q: Seq<u8>)
    requires
        s.ok(),
    ensures
        lookup(s.without(k).entries(), q) == (if q == k && !s.keeps(k) {
            None
        } else {
            lookup(s.entries(), q)
        }),
{
    lemma_without(s, k);
    lemma_map_lookup(s.without(k).entries(), q);
    lemma_map_lookup(s.entries(), q);
}

/// Of two values that are put under one key the second counts.
pub proof fn law_put_twice(s: Shape, k: Seq<u8>, v: Seq<u8>, w: Seq<u8>)
    requires
        s.ok(),
        s.fits(k, v),
        s.with(k, v).fits(k, w),
        s.fits(k, w),
    ensures
        s.with(k, v).with(k, w).map() == s.with(k, w).map(),
{
    lemma_with(s, k, v);
    lemma_with(s.with(k, v), k, w);
    lemma_with(s, k, w);
    assert(s.map().insert(k, v).insert(k, w) =~= s.map().insert(k, w));
}

/// The pairs of a sound database are listed by rising keys, and they are those that are found.
pub proof fn law_listing(pages: Pages, root: PageId, k: Seq<u8>, v: Seq<u8>)
    requires
        sound(pages, root),
    ensures
        sorted(shape_of(pages, root).entries()),
        lookup(shape_of(pages, root).entries(), k) == Some(v) <==> shape_of(
            pages,
            root,
        ).entries().contains((k, v)),
{
    lemma_shape_ok(pages, root);
    let s = shape_of(pages, root).entries();
    lemma_sorted(shape_of(pages, root));
    lemma_has_key(s, k);
    lemma_rank(s, k);
    if s.contains((k, v)) {
        let i = choose|i: int| 0 <= i < s.len() && s[i] == (k, v);
        assert forall|j: int| 0 <= j < i implies key_lt(#[trigger] s[j].0, k) by {
            assert(key_lt(s[j].0, s[i].0));
        }
        lemma_key_order();
        lemma_rank_is(s, k, i);
    }
    if lookup(s, k) == Some(v) {
        assert(s[rank(s, k)] == (k, v));
    }
}

/// A sound database can be read, listed, inspected and measured, and passes its own verification.
pub proof fn law_sound_is_healthy(pages: Pages, root: PageId)
    requires
        sound(pages, root),
    ensures
        meta_of(pages).valid(),
        has_tree(pages, root),
        has_free_list(pages),
        tree_of(pages, root).ordered(None, None),
        countable(tree_of(pages, root)),
        tree_of(pages, root).entries().len() <= usize::MAX,
        sized(meta_of(pages)),
{
    lemma_sound(pages, root);
    law_counts(pages, root);
    lemma_wf_ordered(tree_of(pages, root), None, None, tree_of(pages, root).height());
    let m = meta_of(pages);
    assert((m.last_page_id + 1) * m.page_size == (m.last_page_id + 1) * PAGE_SIZE);
}

/// The same, of a database.
pub proof fn lemma_healthy(db: &Database)
    ensures
        db.sound() ==> {
            let t = tree_of(db.pages(), db.root());
            &&& meta_of(db.pages()).valid()
            &&& db.readable()
            &&& has_free_list(db.pages())
            &&& t.ordered(None, None)
            &&& countable(t)
            &&& db.entries().len() <= usize::MAX
            &&& sized(meta_of(db.pages()))
        },
{
    if db.sound() {
        law_sound_is_healthy(db.pages(), db.root());
    }
}

/// Outside a transaction a database is opened again, from its data file and its log, as it is.
pub proof fn law_reopen(db: &Database, again: &Database, path: Seq<char>, enable_wal: bool)
    requires
        db.wf(),
        db.sound(),
        !db.in_transaction(),
        opened(again, path, enable_wal, db.file_bytes(), db.log_bytes()),
    ensures
        again.pages() == db.pages(),
        again.root() == db.root(),
        again.entries() == db.entries(),
{
    assert(db.log_bytes() =~= Seq::<u8>::empty());
    assert(log_ops(Seq::empty(), enable_wal) =~= Seq::<Op>::empty());
    lemma_sound(db.pages(), db.root());
    lemma_valid_not_empty(db.file_bytes());
}

/// A transaction that is not committed leaves no trace: from the data file, and a log in which
/// nothing is committed, the database is opened as the data file has it.
pub proof fn law_reopen_uncommitted(
    again: &Database,
    path: Seq<char>,
    data: Seq<u8>,
    rs: Seq<LogEntry>,
    tail: Seq<u8>,
)
    requires
        all_fit(rs),
        !has_commit(rs),
        tail.len() < WAL_HEADER_SIZE,
        opened(again, path, true, data, log_bytes(rs) + tail),
    ensures
        again.pages() == start_pages(data),
        again.nothing_logged(),
        log_after(log_bytes(rs) + tail, again.requests()) == Seq::<u8>::empty(),
{
    law_log_round_trip(rs, tail);
    lemma_no_commit(read_back(rs));
    if has_commit(read_back(rs)) {
        let i = choose|i: int|
            0 <= i < read_back(rs).len() && (#[trigger] read_back(rs)[i]).kind
                == WalRecordType::Commit;
        assert(rs[i].kind == WalRecordType::Commit);
    }
}

pub proof fn lemma_no_commit(rs: Seq<LogEntry>)
    ensures
        !has_commit(rs) ==> committed(rs) == Seq::<Op>::empty(),
    decreases rs.len(),
{
    if rs.len() > 0 && !has_commit(rs) {
        let qs = rs.drop_last();
        assert(rs[rs.len() - 1].kind != WalRecordType::Commit);
        if has_commit(qs) {
            let i = choose|i: int|
                0 <= i < qs.len() && (#[trigger] qs[i]).kind == WalRecordType::Commit;
            assert(rs[i] == qs[i]);
        }
        lemma_no_commit(qs);
    }
}

/// A log that is spoiled commits nothing: the database is opened as the data file has it, and the
/// log is emptied.
pub proof fn law_reopen_spoiled(
    again: &Database,
    path: Seq<char>,
    data: Seq<u8>,
    log: Seq<u8>,
)
    requires
        read_from(log, 0, log.len() as int) is None,
        opened(again, path, true, data, log),
    ensures
        again.pages() == start_pages(data),
        again.nothing_logged(),
        log_after(log, again.requests()) == Seq::<u8>::empty(),
{
}

/// The record of a change.
pub open spec fn record_of(op: Op) -> LogEntry {
    match op {
        Op::Insert(k, v) => insert_record(k, v),
        Op::Delete(k) => delete_record(k),
    }
}

/// The records of the changes of a transaction.
pub open spec fn records_of(ops: Seq<Op>) -> Seq<LogEntry> {
    Seq::new(ops.len(), |i: int| record_of(ops[i]))
}

/// The change can be told from its record.
pub open spec fn tellable(op: Op) -> bool {
    match op {
        Op::Insert(k, v) => k.len() < 0x1_0000 && v.len() < 0x1_0000_0000,
        Op::Delete(k) => k.len() < 0x1_0000,
    }
}

proof fn lemma_records_fit(xs: Seq<Op>)
    requires
        forall|i: int| 0 <= i < xs.len() ==> tellable(#[trigger] xs[i]),
    ensures
        all_fit(records_of(xs)),
        forall|i: int| 0 <= i < xs.len() ==> is_change(#[trigger] records_of(xs)[i]),
{
    let rs = records_of(xs);
    assert forall|i: int| 0 <= i < rs.len() implies (#[trigger] rs[i]).fits() by {
        assert(tellable(xs[i]));
    }
}

proof fn lemma_fit_add(a: Seq<LogEntry>, b: Seq<LogEntry>)
    requires
        all_fit(a),
        all_fit(b),
    ensures
        all_fit(a + b),
{
    let c = a + b;
    assert forall|i: int| 0 <= i < c.len() implies (#[trigger] c[i]).fits() by {
        if i < a.len() {
            assert(c[i] == a[i]);
        } else {
            assert(c[i] == b[i - a.len()]);
        }
    }
}

/// Reading records back does not change what they tell.
proof fn lemma_told_again(rs: Seq<LogEntry>)
    ensures
        open_ops(read_back(rs)) == open_ops(rs),
        committed(read_back(rs)) == committed(rs),
    decreases rs.len(),
{
    if rs.len() > 0 {
        let qs = rs.drop_last();
        lemma_told_again(qs);
        assert(read_back(rs).drop_last() =~= read_back(qs));
        assert(read_back(rs).last() == rs.last().read_back());
        assert(rs.last().read_back().body() =~= rs.last().body());
    }
}

/// The records of changes leave the changes open, behind what was open before.
proof fn lemma_left_open(rs: Seq<LogEntry>, xs: Seq<Op>)
    ensures
        open_ops(rs + records_of(xs)) == open_ops(rs) + xs,
        committed(rs + records_of(xs)) == committed(rs),
    decreases xs.len(),
{
    let all = rs + records_of(xs);
    if xs.len() == 0 {
        assert(all =~= rs);
        assert(open_ops(rs) + xs =~= open_ops(rs));
    } else {
        let ys = xs.drop_last();
        lemma_left_open(rs, ys);
        assert(all.drop_last() =~= rs + records_of(ys));
        assert(all.last() == record_of(xs.last()));
        assert(op_of(record_of(xs.last())) == xs.last());
        assert((open_ops(rs) + ys).push(xs.last()) =~= open_ops(rs) + xs);
    }
}

/// A run of transactions, each of them with whether it was committed or aborted.
pub type History = Seq<(Seq<Op>, bool)>;

/// What is logged of the transactions.
pub open spec fn transcript(bs: History) -> Seq<LogEntry>
    decreases bs.len(),
{
    if bs.len() == 0 {
        Seq::empty()
    } else {
        transcript(bs.drop_last()) + records_of(bs.last().0).push(
            if bs.last().1 {
                commit_record()
            } else {
                abort_record()
            },
        )
    }
}

/// The changes of the committed transactions, one transaction after the other.
pub open spec fn kept_of(bs: History) -> Seq<Op>
    decreases bs.len(),
{
    if bs.len() == 0 {
        Seq::empty()
    } else if bs.last().1 {
        kept_of(bs.drop_last()) + bs.last().0
    } else {
        kept_of(bs.drop_last())
    }
}

/// The database after the committed transactions, one after the other.
pub open spec fn run_kept(s: Shape, bs: History) -> Shape
    decreases bs.len(),
{
    if bs.len() == 0 {
        s
    } else if bs.last().1 {
        run(run_kept(s, bs.drop_last()), bs.last().0)
    } else {
        run_kept(s, bs.drop_last())
    }
}

/// All changes of the transactions can be told from their records.
pub open spec fn all_tellable(bs: History) -> bool {
    forall|i: int, j: int|
        0 <= i < bs.len() && 0 <= j < bs[i].0.len() ==> tellable(#[trigger] bs[i].0[j])
}

proof fn lemma_run_add(s: Shape, a: Seq<Op>, b: Seq<Op>)
    ensures
        run(s, a + b) == run(run(s, a), b),
    decreases b.len(),
{
    if b.len() == 0 {
        assert(a + b =~= a);
    } else {
        lemma_run_add(s, a, b.drop_last());
        assert((a + b).drop_last() =~= a + b.drop_last());
    }
}

proof fn lemma_transcript(bs: History)
    requires
        all_tellable(bs),
    ensures
        all_fit(transcript(bs)),
        open_ops(transcript(bs)) == Seq::<Op>::empty(),
        committed(transcript(bs)) == kept_of(bs),
    decreases bs.len(),
{
    if bs.len() > 0 {
        let cs = bs.drop_last();
        let xs = bs.last().0;
        let mark = if bs.last().1 {
            commit_record()
        } else {
            abort_record()
        };
        assert(all_tellable(cs)) by {
            assert forall|i: int, j: int|
                0 <= i < cs.len() && 0 <= j < cs[i].0.len() implies tellable(
                #[trigger] cs[i].0[j],
            ) by {
                assert(cs[i] == bs[i]);
                assert(tellable(bs[i].0[j]));
            }
        }
        lemma_transcript(cs);
        assert forall|j: int| 0 <= j < xs.len() implies tellable(#[trigger] xs[j]) by {
            assert(tellable(bs[bs.len() - 1].0[j]));
        }
        lemma_records_fit(xs);
        let rs = transcript(cs);
        let all = transcript(bs);
        assert(all_fit(seq![mark]));
        lemma_fit_add(rs, records_of(xs));
        lemma_fit_add(rs + records_of(xs), seq![mark]);
        assert(all =~= rs + records_of(xs) + seq![mark]);
        lemma_left_open(rs, xs);
        assert(all.drop_last() =~= rs + records_of(xs));
        assert(Seq::<Op>::empty() + xs =~= xs);
    }
}

/// Opening a database does what the committed transactions of its log did, one transaction after
/// the other and each in its order. What follows the last commit or abort does not count, nor does
/// the start of a header at the end of the log.
pub proof fn law_replay_transactions(bs: History, ys: Seq<Op>, tail: Seq<u8>, s: Shape)
    requires
        all_tellable(bs),
        forall|i: int| 0 <= i < ys.len() ==> tellable(#[trigger] ys[i]),
        tail.len() < WAL_HEADER_SIZE,
    ensures
        log_ops(log_bytes(transcript(bs) + records_of(ys)) + tail, true) == kept_of(bs),
        run(s, kept_of(bs)) == run_kept(s, bs),
{
    let rs = transcript(bs) + records_of(ys);
    lemma_transcript(bs);
    lemma_records_fit(ys);
    lemma_fit_add(transcript(bs), records_of(ys));
    law_log_round_trip(rs, tail);
    lemma_told_again(rs);
    lemma_left_open(transcript(bs), ys);
    if rs.len() == 0 {
        assert(kept_of(bs) =~= Seq::<Op>::empty());
    }
    lemma_run_kept(s, bs);
}

proof fn lemma_run_kept(s: Shape, bs: History)
    ensures
        run(s, kept_of(bs)) == run_kept(s, bs),
    decreases bs.len(),
{
    if bs.len() > 0 {
        lemma_run_kept(s, bs.drop_last());
        if bs.last().1 {
            lemma_run_add(s, kept_of(bs.drop_last()), bs.last().0);
        }
    }
}

/// A committed transaction is done again from its log, change by change. What follows the commit
/// without one of its own does not count, nor does the start of a header at the end of the log.
pub proof fn law_replay_transaction(xs: Seq<Op>, ys: Seq<Op>, tail: Seq<u8>)
    requires
        forall|i: int| 0 <= i < xs.len() ==> tellable(#[trigger] xs[i]),
        forall|i: int| 0 <= i < ys.len() ==> tellable(#[trigger] ys[i]),
        tail.len() < WAL_HEADER_SIZE,
    ensures
        log_ops(
            log_bytes(records_of(xs).push(commit_record()) + records_of(ys)) + tail,
            true,
        ) == xs,
{
    let bs: History = seq![(xs, true)];
    let s = empty_shape();
    assert(bs.drop_last() =~= Seq::<(Seq<Op>, bool)>::empty());
    assert(transcript(bs.drop_last()) =~= Seq::<LogEntry>::empty());
    assert(kept_of(bs.drop_last()) =~= Seq::<Op>::empty());
    assert(bs.last() == (xs, true));
    assert(transcript(bs) =~= records_of(xs).push(commit_record()));
    assert(kept_of(bs) =~= xs);
    assert(all_tellable(bs)) by {
        assert forall|i: int, j: int| 0 <= i < bs.len() && 0 <= j < bs[i].0.len() implies tellable(
            #[trigger] bs[i].0[j],
        ) by {
            assert(bs[i].0[j] == xs[j]);
        }
    }
    law_replay_transactions(bs, ys, tail, s);
}

/// After a crash between the commit of a transaction and the writing of its pages, the database is
/// opened with the transaction done again.
pub proof fn law_crash_after_commit(
    before: &Database,
    again: &Database,
    path: Seq<char>,
    xs: Seq<Op>,
    tail: Seq<u8>,
)
    requires
        before.wf(),
        before.sound(),
        before.pages() == file_pages(before.file_bytes()),
        forall|i: int| 0 <= i < xs.len() ==> tellable(#[trigger] xs[i]),
        tail.len() < WAL_HEADER_SIZE,
        opened(
            again,
            path,
            true,
            before.file_bytes(),
            log_bytes(records_of(xs).push(commit_record())) + tail,
        ),
    ensures
        again.shape() == run(before.shape(), xs),
{
    let rs = records_of(xs).push(commit_record());
    law_replay_transaction(xs, Seq::empty(), tail);
    assert(rs + records_of(Seq::empty()) =~= rs);
    lemma_sound(before.pages(), before.root());
    lemma_valid_not_empty(before.file_bytes());
}

/// A log that was cut off anywhere before its end commits nothing, if nothing but its last record
/// commits.
proof fn lemma_cut_log(rs: Seq<LogEntry>, n: int)
    requires
        all_fit(rs),
        0 <= n < log_bytes(rs).len(),
        forall|i: int|
            0 <= i < rs.len() - 1 ==> (#[trigger] rs[i]).kind != WalRecordType::Commit,
    ensures
        log_ops(log_bytes(rs).take(n), true) == Seq::<Op>::empty(),
    decreases rs.len(),
{
    let qs = rs.drop_last();
    let e = rs.last();
    let o = log_bytes(qs).len() as int;
    assert(all_fit(qs)) by {
        assert forall|i: int| 0 <= i < qs.len() implies (#[trigger] qs[i]).fits() by {
            assert(qs[i] == rs[i]);
        }
    }
    assert(rs[rs.len() - 1].fits());
    if n < o {
        assert(log_bytes(rs).take(n) =~= log_bytes(qs).take(n));
        assert forall|i: int| 0 <= i < qs.len() - 1 implies (#[trigger] qs[i]).kind
            != WalRecordType::Commit by {
            assert(qs[i] == rs[i]);
        }
        lemma_cut_log(qs, n);
    } else {
        let part = e.encoded().take(n - o);
        assert(log_bytes(rs).take(n) =~= log_bytes(qs) + part);
        if n - o < WAL_HEADER_SIZE {
            law_log_round_trip(qs, part);
            lemma_no_commit(read_back(qs));
            if has_commit(read_back(qs)) {
                let i = choose|i: int|
                    0 <= i < read_back(qs).len() && (#[trigger] read_back(qs)[i]).kind
                        == WalRecordType::Commit;
                assert(rs[i].kind != WalRecordType::Commit);
            }
        } else {
            law_truncated_log(qs, e, n - o);
        }
    }
}

/// A transaction is committed as a whole or not at all: wherever the writing of its log was cut
/// off, the database is opened without any of it, or, from the whole log, with all of it.
pub proof fn law_commit_is_atomic(
    before: &Database,
    again: &Database,
    path: Seq<char>,
    xs: Seq<Op>,
    n: int,
)
    requires
        before.wf(),
        before.sound(),
        before.pages() == file_pages(before.file_bytes()),
        forall|i: int| 0 <= i < xs.len() ==> tellable(#[trigger] xs[i]),
        0 <= n <= log_bytes(records_of(xs).push(commit_record())).len(),
        opened(
            again,
            path,
            true,
            before.file_bytes(),
            log_bytes(records_of(xs).push(commit_record())).take(n),
        ),
    ensures
        n < log_bytes(records_of(xs).push(commit_record())).len() ==> again.pages()
            == before.pages() && again.entries() == before.entries(),
        n == log_bytes(records_of(xs).push(commit_record())).len() ==> again.shape() == run(
            before.shape(),
            xs,
        ),
{
    let rs = records_of(xs).push(commit_record());
    let log = log_bytes(rs);
    lemma_sound(before.pages(), before.root());
    lemma_valid_not_empty(before.file_bytes());
    if n < log.len() {
        assert(all_fit(rs)) by {
            assert forall|i: int| 0 <= i < rs.len() implies (#[trigger] rs[i]).fits() by {
                if i < xs.len() {
                    assert(tellable(xs[i]));
                }
            }
        }
        assert forall|i: int| 0 <= i < rs.len() - 1 implies (#[trigger] rs[i]).kind
            != WalRecordType::Commit by {
            assert(rs[i] == record_of(xs[i]));
        }
        lemma_cut_log(rs, n);
    } else {
        assert(log.take(n) =~= log + Seq::<u8>::empty());
        law_crash_after_commit(before, again, path, xs, Seq::empty());
    }
}

/// The database is within a transaction that has made the changes so far. The log tells of them
/// and of nothing else, and the data file holds the database from before.
pub open spec fn during(before: &Database, now: &Database, xs: Seq<Op>) -> bool {
    &&& before.wf()
    &&& before.sound()
    &&& before.pages() == file_pages(before.file_bytes())
    &&& now.sound()
    &&& now.in_transaction()
    &&& now.shape() == run(before.shape(), xs)
    &&& now.file_bytes() == before.file_bytes()
    &&& forall|i: int| 0 <= i < xs.len() ==> tellable(#[trigger] xs[i])
    &&& now.wal() matches Some(w) && holds_log(&w, records_of(xs))
}

/// A transaction begins without changes.
pub proof fn law_transaction_begins(before: &Database, now: &Database)
    requires
        before.wf(),
        before.sound(),
        !before.in_transaction(),
        before.wal() is Some,
        now.in_transaction(),
        now.same_but_transaction(before),
    ensures
        during(before, now, Seq::empty()),
{
    assert(records_of(Seq::empty()) =~= Seq::<LogEntry>::empty());
}

/// A put within a transaction is one more of its changes.
pub proof fn law_transaction_puts(
    before: &Database,
    now: &Database,
    after: &Database,
    xs: Seq<Op>,
    k: Seq<u8>,
    v: Seq<u8>,
)
    requires
        during(before, now, xs),
        storable(k, v),
        after.sound(),
        after.shape() == now.shape().with(k, v),
        after.logged_change(now, insert_record(k, v)),
    ensures
        during(before, after, xs.push(Op::Insert(k, v))),
{
    lemma_one_more(before, now, after, xs, Op::Insert(k, v));
}

/// What was refused within a transaction, or changed nothing, is none of its changes.
pub proof fn law_transaction_refuses(
    before: &Database,
    now: &Database,
    after: &Database,
    xs: Seq<Op>,
)
    requires
        during(before, now, xs),
        after.unchanged(now),
    ensures
        during(before, after, xs),
{
}

/// A deletion within a transaction is one more of its changes.
pub proof fn law_transaction_deletes(
    before: &Database,
    now: &Database,
    after: &Database,
    xs: Seq<Op>,
    k: Seq<u8>,
)
    requires
        during(before, now, xs),
        valid_key(k),
        after.sound(),
        after.shape() == now.shape().without(k),
        after.logged_change(now, delete_record(k)),
    ensures
        during(before, after, xs.push(Op::Delete(k))),
{
    lemma_one_more(before, now, after, xs, Op::Delete(k));
}

proof fn lemma_one_more(before: &Database, now: &Database, after: &Database, xs: Seq<Op>, x: Op)
    requires
        during(before, now, xs),
        tellable(x),
        after.sound(),
        after.in_transaction(),
        after.file_bytes() == now.file_bytes(),
        after.shape() == step(now.shape(), x),
        after.only_logged(now, record_of(x), false),
    ensures
        during(before, after, xs.push(x)),
{
    let ys = xs.push(x);
    let w = now.wal()->0;
    let u = after.wal()->0;
    assert(ys.drop_last() =~= xs);
    lemma_joins_log(&w, u.bytes(), records_of(xs), record_of(x));
    assert(records_of(ys) =~= records_of(xs).push(record_of(x)));
    assert forall|i: int| 0 <= i < ys.len() implies tellable(#[trigger] ys[i]) by {
        if i < xs.len() {
            assert(ys[i] == xs[i]);
        }
    }
}

/// A transaction is done as a whole or not at all. Once its commit is on disk, and before its pages
/// are written, a crash does not undo it: the database is opened as the transaction left it. As
/// long as less of the log is on disk, it is opened as it was when the transaction began.
pub proof fn law_transaction_survives(
    before: &Database,
    now: &Database,
    again: &Database,
    path: Seq<char>,
    xs: Seq<Op>,
    n: int,
)
    requires
        during(before, now, xs),
        ({
            let log = log_after(now.log_bytes(), committing(now.wal()));
            &&& 0 <= n <= log.len()
            &&& opened(again, path, true, before.file_bytes(), log.take(n))
        }),
    ensures
        ({
            let log = log_after(now.log_bytes(), committing(now.wal()));
            if n == log.len() {
                again.shape() == now.shape() && again.entries() == now.entries()
            } else {
                again.pages() == before.pages() && again.entries() == before.entries()
            }
        }),
{
    let w = now.wal()->0;
    let c = commit_record();
    let a = Change::Write(w.offset(), c.encoded());
    let cs = seq![a, Change::Sync];
    assert(cs.drop_last() =~= seq![a]);
    assert(seq![a].drop_last() =~= Seq::<Change>::empty());
    reveal_with_fuel(changed_all, 3);
    lemma_after_changes(w.bytes(), cs);
    lemma_joins_log(&w, written(w.bytes(), w.offset(), c.encoded()), records_of(xs), c);
    law_commit_is_atomic(before, again, path, xs, n);
}

/// The log of a single change that is committed at once.
proof fn lemma_single_log(before: &Database, x: Op)
    requires
        before.wf(),
        !before.in_transaction(),
        before.wal() is Some,
        tellable(x),
    ensures
        log_after(before.log_bytes(), logging(before.wal(), record_of(x), true)) == log_bytes(
            records_of(seq![x]).push(commit_record()),
        ),
{
    let w = before.wal()->0;
    let e = record_of(x);
    let c = commit_record();
    let a1 = Change::Write(w.offset(), e.encoded());
    let a2 = Change::Write(w.offset() + e.step(), c.encoded());
    let b1 = written(Seq::empty(), 0, e.encoded());
    let rs = seq![e];
    let xs = seq![x];
    let none = Seq::<LogEntry>::empty();
    assert(log_bytes(none) =~= Seq::<u8>::empty());
    lemma_joins_log(&w, b1, none, e);
    assert(none.push(e) =~= rs);
    lemma_after_changes(Seq::empty(), seq![a1, a2]);
    assert(seq![a1, a2].drop_last() =~= seq![a1]);
    assert(seq![a1].drop_last() =~= Seq::<Change>::empty());
    reveal_with_fuel(changed_all, 3);
    lemma_written_end(b1, c.encoded());
    assert(rs.push(c).drop_last() =~= rs);
    assert(records_of(xs) =~= rs);
    assert(log_bytes(rs.push(c)) =~= b1 + c.encoded());
}

/// A change outside a transaction is made as a whole or not at all. Once its record and the commit
/// are on disk, and before its pages are written, a crash does not undo it. As long as less of the
/// log is on disk, the database is opened as it was.
pub proof fn law_change_survives(
    before: &Database,
    again: &Database,
    path: Seq<char>,
    x: Op,
    n: int,
)
    requires
        before.wf(),
        before.sound(),
        !before.in_transaction(),
        before.wal() is Some,
        tellable(x),
        ({
            let log = log_after(before.log_bytes(), logging(before.wal(), record_of(x), true));
            &&& 0 <= n <= log.len()
            &&& opened(again, path, true, before.file_bytes(), log.take(n))
        }),
    ensures
        ({
            let log = log_after(before.log_bytes(), logging(before.wal(), record_of(x), true));
            if n == log.len() {
                again.shape() == step(before.shape(), x)
            } else {
                again.pages() == before.pages() && again.entries() == before.entries()
            }
        }),
{
    let xs = seq![x];
    lemma_single_log(before, x);
    law_commit_is_atomic(before, again, path, xs, n);
    assert(xs.drop_last() =~= Seq::<Op>::empty());
    reveal_with_fuel(run, 2);
}

/// What changes do to keys and values, one after the other.
pub open spec fn mapped(m: Map<Seq<u8>, Seq<u8>>, ops: Seq<Op>) -> Map<Seq<u8>, Seq<u8>>
    decreases ops.len(),
{
    if ops.len() == 0 {
        m
    } else {
        let before = mapped(m, ops.drop_last());
        match ops.last() {
            Op::Insert(k, v) => before.insert(k, v),
            Op::Delete(k) => before.remove(k),
        }
    }
}

/// The change is to take out a key that the database has, and keeps.
pub open spec fn refused(s: Shape, op: Op) -> bool {
    match op {
        Op::Insert(k, v) => false,
        Op::Delete(k) => s.keeps(k) && s.map().dom().contains(k),
    }
}

/// None of the changes is refused.
pub open spec fn none_refused(s: Shape, ops: Seq<Op>) -> bool {
    forall|n: int| 0 <= n < ops.len() ==> !refused(#[trigger] run(s, ops.take(n)), ops[n])
}

/// One change does to the database what it does to its keys and values, unless it is refused.
pub proof fn lemma_step(s: Shape, op: Op)
    requires
        s.ok(),
        acceptable(op),
        has_room(s, op),
    ensures
        step(s, op).ok(),
        step(s, op).map() == (match op {
            Op::Insert(k, v) => s.map().insert(k, v),
            Op::Delete(k) => if refused(s, op) {
                s.map()
            } else {
                s.map().remove(k)
            },
        }),
{
    match op {
        Op::Insert(k, v) => {
            lemma_with(s, k, v);
        },
        Op::Delete(k) => {
            lemma_without(s, k);
            if !s.map().dom().contains(k) {
                assert(s.map().remove(k) =~= s.map());
            }
        },
    }
}

/// Changes for which there is room, and none of which is refused, do to the database what they do
/// to its keys and values.
pub proof fn law_changes(s: Shape, ops: Seq<Op>)
    requires
        s.ok(),
        all_acceptable(ops),
        run_fits(s, ops),
        none_refused(s, ops),
    ensures
        run(s, ops).ok(),
        run(s, ops).map() == mapped(s.map(), ops),
    decreases ops.len(),
{
    if ops.len() > 0 {
        let n = ops.len() - 1;
        let qs = ops.drop_last();
        lemma_run_start(s, ops, n);
        assert(ops.take(n) =~= qs);
        assert(ops.take(n + 1) =~= ops);
        assert(none_refused(s, qs)) by {
            assert forall|i: int| 0 <= i < qs.len() implies !refused(
                #[trigger] run(s, qs.take(i)),
                qs[i],
            ) by {
                assert(qs.take(i) =~= ops.take(i));
                assert(qs[i] == ops[i]);
            }
        }
        law_changes(s, qs);
        assert(has_room(run(s, ops.take(n)), ops[n]));
        assert(!refused(run(s, ops.take(n)), ops[n]));
        lemma_step(run(s, qs), ops[n]);
    }
}

pub proof fn lemma_run_start(s: Shape, ops: Seq<Op>, n: int)
    requires
        0 <= n <= ops.len(),
        all_acceptable(ops),
        run_fits(s, ops),
    ensures
        all_acceptable(ops.take(n)),
        run_fits(s, ops.take(n)),
{
    let q = ops.take(n);
    assert forall|i: int| 0 <= i < q.len() implies acceptable(#[trigger] q[i]) by {
        assert(ops[i] == q[i]);
    }
    assert forall|i: int| 0 <= i < q.len() && all_acceptable(q.take(i + 1)) implies has_room(
        #[trigger] run(s, q.take(i)),
        q[i],
    ) by {
        assert(q.take(i) =~= ops.take(i));
        assert(q.take(i + 1) =~= ops.take(i + 1));
        assert(has_room(run(s, ops.take(i)), ops[i]));
    }
}

/// What becomes of a key.
pub enum Fate {
    /// It is bound to the value.
    Bound(Seq<u8>),
    /// It is taken out.
    Gone,
    /// It is as it was.
    Same,
}

/// What becomes of the key by the changes: the last of those that concern it, and are not refused,
/// counts.
pub open spec fn fate(s: Shape, ops: Seq<Op>, k: Seq<u8>) -> Fate
    decreases ops.len(),
{
    if ops.len() == 0 {
        Fate::Same
    } else {
        let qs = ops.drop_last();
        match ops.last() {
            Op::Insert(q, v) => if q == k {
                Fate::Bound(v)
            } else {
                fate(s, qs, k)
            },
            Op::Delete(q) => if q == k && !refused(run(s, qs), ops.last()) {
                Fate::Gone
            } else {
                fate(s, qs, k)
            },
        }
    }
}

/// What changes for which there is room do to each key, refused ones among them.
pub proof fn law_fate(s: Shape, ops: Seq<Op>, k: Seq<u8>)
    requires
        s.ok(),
        all_acceptable(ops),
        run_fits(s, ops),
    ensures
        run(s, ops).ok(),
        ({
            let m = run(s, ops).map();
            match fate(s, ops, k) {
                Fate::Bound(v) => m.dom().contains(k) && m[k] == v,
                Fate::Gone => !m.dom().contains(k),
                Fate::Same => m.dom().contains(k) == s.map().dom().contains(k) && m[k]
                    == s.map()[k],
            }
        }),
    decreases ops.len(),
{
    if ops.len() > 0 {
        let n = ops.len() - 1;
        let qs = ops.drop_last();
        lemma_run_start(s, ops, n);
        assert(ops.take(n) =~= qs);
        assert(ops.take(n + 1) =~= ops);
        law_fate(s, qs, k);
        assert(has_room(run(s, ops.take(n)), ops[n]));
        lemma_step(run(s, qs), ops[n]);
    }
}

/// The value to which the changes bind the key last.
spec fn last_put(ops: Seq<Op>, k: Seq<u8>) -> Option<Seq<u8>>
    decreases ops.len(),
{
    if ops.len() == 0 {
        None
    } else {
        match ops.last() {
            Op::Insert(q, v) if q == k => Some(v),
            _ => last_put(ops.drop_last(), k),
        }
    }
}

proof fn lemma_last_put(s: Shape, ops: Seq<Op>, k: Seq<u8>)
    ensures
        fate(s, ops, k) is Gone || fate(s, ops, k) == (match last_put(ops, k) {
            Some(v) => Fate::Bound(v),
            None => Fate::Same,
        }),
    decreases ops.len(),
{
    if ops.len() > 0 {
        lemma_last_put(s, ops.drop_last(), k);
    }
}

/// Doing a transaction again, as after a crash between the writing of its pages and the emptying
/// of its log, changes nothing, if the keys that it takes out are those that it took out before.
pub proof fn law_replay_again(s: Shape, xs: Seq<Op>)
    requires
        s.ok(),
        all_acceptable(xs),
        run_fits(s, xs),
        run_fits(run(s, xs), xs),
        forall|k: Seq<u8>| #[trigger] fate(s, xs, k) is Gone <==> fate(run(s, xs), xs, k) is Gone,
    ensures
        run(run(s, xs), xs).map() == run(s, xs).map(),
{
    let a = run(s, xs).map();
    let b = run(run(s, xs), xs).map();
    law_fate(s, xs, Seq::empty());
    assert forall|k: Seq<u8>| #[trigger] b.dom().contains(k) == a.dom().contains(k) && (
    a.dom().contains(k) ==> b[k] == a[k]) by {
        assert(fate(s, xs, k) is Gone <==> fate(run(s, xs), xs, k) is Gone);
        law_fate(s, xs, k);
        law_fate(run(s, xs), xs, k);
        lemma_last_put(s, xs, k);
        lemma_last_put(run(s, xs), xs, k);
    }
    assert(b =~= a);
}

/// A database never holds a log that commits anything, however much of it has reached the disk.
pub proof fn lemma_logs_no_commit(db: &Database, n: int)
    requires
        db.wf(),
        0 <= n <= db.log_bytes().len(),
    ensures
        log_ops(db.log_bytes().take(n), true) == Seq::<Op>::empty(),
{
    let log = db.log_bytes();
    if db.in_transaction() && db.wal() is Some {
        let w = db.wal()->0;
        let rs = choose|rs: Seq<LogEntry>| holds_changes(&w, rs);
        assert forall|i: int| 0 <= i < rs.len() implies (#[trigger] rs[i]).kind
            != WalRecordType::Commit by {
            assert(is_change(rs[i]));
        }
        if n < log.len() {
            lemma_cut_log(rs, n);
        } else {
            assert(log.take(n) =~= log_bytes(rs) + Seq::<u8>::empty());
            law_log_round_trip(rs, Seq::empty());
            lemma_no_commit(read_back(rs));
            if has_commit(read_back(rs)) {
                let i = choose|i: int|
                    0 <= i < read_back(rs).len() && (#[trigger] read_back(rs)[i]).kind
                        == WalRecordType::Commit;
                assert(rs[i].kind == WalRecordType::Commit);
            }
        }
    } else {
        assert(log.take(n) =~= Seq::<u8>::empty());
    }
}

/// A crash within a transaction undoes it: however much of its log has reached the disk, the
/// database is opened as it was when the transaction began.
pub proof fn law_crash_in_transaction(
    before: &Database,
    now: &Database,
    again: &Database,
    path: Seq<char>,
    n: int,
)
    requires
        before.wf(),
        before.sound(),
        !before.in_transaction(),
        now.wf(),
        now.file_bytes() == before.file_bytes(),
        0 <= n <= now.log_bytes().len(),
        opened(again, path, true, now.file_bytes(), now.log_bytes().take(n)),
    ensures
        again.pages() == before.pages(),
        again.root() == before.root(),
        again.entries() == before.entries(),
{
    lemma_logs_no_commit(now, n);
    lemma_sound(before.pages(), before.root());
    lemma_valid_not_empty(before.file_bytes());
}

/// Closing a database, within a transaction too, puts what it holds into the data file, and its
/// log commits nothing more.
pub proof fn law_close_then_open(
    db: &Database,
    again: &Database,
    path: Seq<char>,
    enable_wal: bool,
    ws: Seq<Change>,
)
    requires
        db.wf(),
        db.sound(),
        file_pages(changed_all(db.file_bytes(), ws)) == db.pages(),
        opened(again, path, enable_wal, changed_all(db.file_bytes(), ws), db.log_bytes()),
    ensures
        again.pages() == db.pages(),
        again.root() == db.root(),
        again.entries() == db.entries(),
{
    let log = db.log_bytes();
    lemma_logs_no_commit(db, log.len() as int);
    assert(log.take(log.len() as int) =~= log);
    lemma_sound(db.pages(), db.root());
    lemma_valid_not_empty(changed_all(db.file_bytes(), ws));
}

/// An aborted transaction is not done again.
pub proof fn law_replay_aborted(xs: Seq<Op>, tail: Seq<u8>)
    requires
        forall|i: int| 0 <= i < xs.len() ==> tellable(#[trigger] xs[i]),
        tail.len() < WAL_HEADER_SIZE,
    ensures
        log_ops(log_bytes(records_of(xs).push(abort_record())) + tail, true) == Seq::<Op>::empty(),
{
    let rs = records_of(xs).push(abort_record());
    assert(all_fit(rs)) by {
        assert forall|i: int| 0 <= i < rs.len() implies (#[trigger] rs[i]).fits() by {
            if i < xs.len() {
                assert(tellable(xs[i]));
            }
        }
    }
    law_log_round_trip(rs, tail);
    lemma_no_commit(read_back(rs));
    if has_commit(read_back(rs)) {
        let i = choose|i: int|
            0 <= i < read_back(rs).len() && (#[trigger] read_back(rs)[i]).kind
                == WalRecordType::Commit;
        if i < xs.len() {
            assert(record_of(xs[i]).kind != WalRecordType::Commit);
        }
    }
}

/// Aborting a transaction takes the database back to where it stood when the transaction began.
pub proof fn law_abort_restores(begun: &Database, aborted: &Database)
    requires
        begun.wf(),
        !begun.in_transaction(),
        aborted.wf(),
        aborted.pages() == file_pages(begun.file_bytes()),
    ensures
        aborted.pages() == begun.pages(),
        aborted.root() == begun.root(),
        aborted.entries() == begun.entries(),
{
}

/// Pairs that are put one after the other, by rising keys, into an empty database are its pairs.
proof fn lemma_run_sorted(es: Seq<Entry>, n: int)
    requires
        sorted(es),
        0 <= n <= es.len(),
        all_acceptable(inserts_of(es)),
        run_fits(empty_shape(), inserts_of(es)),
    ensures
        run(empty_shape(), inserts_of(es).take(n)).ok(),
        run(empty_shape(), inserts_of(es).take(n)).entries() == es.take(n),
        run(empty_shape(), inserts_of(es).take(n)).free.len() == 0,
    decreases n,
{
    let ops = inserts_of(es);
    let s0 = empty_shape();
    lemma_fresh_sound();
    lemma_shape_ok(fresh_pages(), ROOT_PAGE_ID);
    if n == 0 {
        assert(ops.take(0) =~= Seq::<Op>::empty());
        assert(es.take(0) =~= Seq::<Entry>::empty());
    } else {
        lemma_run_sorted(es, n - 1);
        let s = run(s0, ops.take(n - 1));
        let e = es[n - 1];
        assert(ops.take(n).drop_last() =~= ops.take(n - 1));
        assert(ops.take(n).last() == ops[n - 1]);
        assert(all_acceptable(ops.take(n))) by {
            assert forall|i: int| 0 <= i < n implies acceptable(
                #[trigger] ops.take(n)[i],
            ) by {
                assert(acceptable(ops[i]));
            }
        }
        assert(has_room(s, ops[n - 1]));
        lemma_with(s, e.0, e.1);
        lemma_append_last(es, n - 1);
    }
}

/// Binding a key behind all others appends it.
proof fn lemma_append_last(es: Seq<Entry>, n: int)
    requires
        sorted(es),
        0 <= n < es.len(),
    ensures
        with_entry(es.take(n), es[n].0, es[n].1) == es.take(n + 1),
{
    let s = es.take(n);
    let k = es[n].0;
    assert(sorted(s)) by {
        assert forall|i: int, j: int| 0 <= i < j < s.len() implies key_lt(
            #[trigger] s[i].0,
            #[trigger] s[j].0,
        ) by {
            assert(key_lt(es[i].0, es[j].0));
        }
    }
    assert forall|i: int| 0 <= i < n implies key_lt(#[trigger] s[i].0, k) by {
        assert(key_lt(es[i].0, es[n].0));
    }
    lemma_rank_is(s, k, n);
    assert(!has_key(s, k));
    assert(with_entry(s, k, es[n].1) =~= es.take(n + 1));
}

/// The pairs that a database holds can be put.
pub proof fn lemma_all_acceptable(s: Shape)
    requires
        s.ok(),
    ensures
        all_storable(s.entries()),
        all_acceptable(inserts_of(s.entries())),
{
    let es = s.entries();
    let ops = inserts_of(es);
    lemma_entries_bounded(s.tree, None, None, s.tree.height());
    assert forall|i: int| 0 <= i < es.len() implies storable((#[trigger] es[i]).0, es[i].1) by {}
    assert forall|i: int| 0 <= i < ops.len() implies acceptable(#[trigger] ops[i]) by {
        assert(storable(es[i].0, es[i].1));
    }
}

/// Compacting a sound database keeps its pairs and leaves no page free.
pub proof fn law_compact_preserves(before: &Database, after: &Database)
    requires
        before.sound(),
        before.can_compact(),
        after.shape() == run(empty_shape(), inserts_of(before.entries())),
    ensures
        all_acceptable(inserts_of(before.entries())),
        after.shape().ok(),
        after.shape().entries() == before.entries(),
        after.shape().free.len() == 0,
{
    let es = before.entries();
    let ops = inserts_of(es);
    lemma_shape_ok(before.pages(), before.root());
    lemma_all_acceptable(before.shape());
    lemma_sorted(before.shape());
    lemma_fresh_sound();
    lemma_shape_ok(fresh_pages(), ROOT_PAGE_ID);
    if es.len() == 0 {
        assert(ops =~= Seq::<Op>::empty());
        assert(es =~= Seq::<Entry>::empty());
    } else {
        lemma_run_sorted(es, es.len() as int);
        assert(ops.take(es.len() as int) =~= ops);
        assert(es.take(es.len() as int) =~= es);
    }
}

/// What pairs do to the keys and values of a database when they are put, one after the other.
pub open spec fn overlaid(m: Map<Seq<u8>, Seq<u8>>, es: Seq<Entry>) -> Map<Seq<u8>, Seq<u8>>
    decreases es.len(),
{
    if es.len() == 0 {
        m
    } else {
        overlaid(m, es.drop_last()).insert(es.last().0, es.last().1)
    }
}

/// Pairs that are put one after the other overlay what the database held.
pub proof fn law_puts_overlay(s: Shape, es: Seq<Entry>)
    requires
        s.ok(),
        all_acceptable(inserts_of(es)),
        run_fits(s, inserts_of(es)),
    ensures
        run(s, inserts_of(es)).ok(),
        run(s, inserts_of(es)).map() == overlaid(s.map(), es),
    decreases es.len(),
{
    if es.len() > 0 {
        let qs = es.drop_last();
        let n = qs.len() as int;
        let ops = inserts_of(es);
        let q = inserts_of(qs);
        assert(ops.drop_last() =~= q);
        assert(ops.take(n) =~= q);
        assert(ops.take(n + 1) =~= ops);
        assert(all_acceptable(q)) by {
            assert forall|i: int| 0 <= i < q.len() implies acceptable(
                #[trigger] q[i],
            ) by {
                assert(ops[i] == q[i]);
            }
        }
        assert(run_fits(s, q)) by {
            assert forall|i: int|
                0 <= i < q.len() && all_acceptable(q.take(i + 1)) implies has_room(
                #[trigger] run(s, q.take(i)),
                q[i],
            ) by {
                assert(q.take(i) =~= ops.take(i));
                assert(q.take(i + 1) =~= ops.take(i + 1));
                assert(has_room(run(s, ops.take(i)), ops[i]));
            }
        }
        law_puts_overlay(s, qs);
        assert(has_room(run(s, ops.take(n)), ops[n]));
        let e = es.last();
        lemma_with(run(s, q), e.0, e.1);
    }
}

/// What one database exports, another imports: every pair of the first is in the second
/// afterwards. Into an empty database nothing else is.
pub proof fn law_export_import(
    from: &Database,
    into: &Database,
    after: &Database,
    r: Result<u64>,
)
    requires
        from.sound(),
        into.sound(),
        into.can_import(export_bytes(from.entries())),
        imported(into, after, export_bytes(from.entries()), r),
    ensures
        r matches Ok(n) && n == from.entries().len(),
        after.shape().map() == overlaid(into.shape().map(), from.entries()),
        into.shape() == empty_shape() ==> after.shape().entries() == from.entries(),
{
    let es = from.entries();
    let b = export_bytes(es);
    let ops = inserts_of(es);
    lemma_shape_ok(into.pages(), into.root());
    lemma_shape_ok(from.pages(), from.root());
    lemma_all_acceptable(from.shape());
    law_export_round_trip(es);
    lemma_sorted(from.shape());
    if es.len() > 0 {
        law_puts_overlay(into.shape(), es);
        if into.shape() == empty_shape() {
            lemma_run_sorted(es, es.len() as int);
            assert(ops.take(es.len() as int) =~= ops);
            assert(es.take(es.len() as int) =~= es);
        }
    } else {
        lemma_fresh_sound();
        assert(es =~= Seq::<Entry>::empty());
    }
}

/// Pages that were flushed are read again from the file as they were.
pub proof fn law_flush_then_reload(flushed: &Pager, again: &Pager)
    requires
        file_pages(flushed.file_bytes()) == flushed.pages(),
        again.file_bytes() == flushed.file_bytes(),
        again.pages() == file_pages(again.file_bytes()),
    ensures
        again.pages() == flushed.pages(),
{
}

/// A page that was freed last is handed out next, and behind it the pages that were free before.
pub proof fn law_free_then_allocate(pages: Pages, next: PageId, id: PageId)
    requires
        next > ROOT_PAGE_ID,
        id != INVALID_PAGE_ID,
        id != META_PAGE_ID,
        pages[META_PAGE_ID].len() == PAGE_SIZE,
    ensures
        allocated(after_free(pages, id), next) == id,
        meta_of(after_allocate(after_free(pages, id), next)) == meta_of(pages),
{
    let m = meta_of(pages);
    let z = crate::bytes::zeros(PAGE_SIZE as nat);
    let link = crate::bytes::splice(z, 0, crate::bytes::enc64(m.freelist_page));
    let p1 = pages.insert(id, link);
    assert(p1[META_PAGE_ID] == pages[META_PAGE_ID]);
    let m1 = MetaData { freelist_page: id, ..m };
    lemma_with_meta(p1, m1);
    let q = after_free(pages, id);
    assert(q[id] == link);
    lemma_enc64(m.freelist_page);
    assert forall|j: int| 0 <= j < 8 implies #[trigger] link[0 + j] == crate::bytes::enc64(
        m.freelist_page,
    )[0 + j] by {}
    lemma_le_window(link, 0, crate::bytes::enc64(m.freelist_page), 0, 8);
    assert(next_free(q, id) == m.freelist_page);
    let m2 = MetaData { freelist_page: next_free(q, id), ..m1 };
    lemma_with_meta(q, m2);
}

} // verus!
