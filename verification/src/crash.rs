//! What holds however far the requests of a call have been carried out when the machine stops.
//!
//! The pages that a call writes are taken to be written all or none; between two of them the data
//! file is neither the old nor the new one.
use vstd::prelude::*;
use crate::constants::WalRecordType;
use crate::database::{Database, Stats};
use crate::effects::{
    aborting, clearing, committing, compacted, holds_changes, in_order, lemma_set_len_zero,
    lemma_valid_not_empty, log_ops, logging, openable, opened, root_of, start_pages,
};
use crate::laws::{
    during, fate, law_change_survives, law_crash_after_commit, law_crash_in_transaction,
    law_replay_again, law_replay_transaction, law_transaction_survives, lemma_logs_no_commit,
    lemma_no_commit, lemma_step, record_of, records_of, tellable,
};
use crate::replay::{
    acceptable, all_acceptable, has_commit, has_room, is_change, run, run_fits, step, Op,
};
use crate::requests::{
    data_after, lemma_after_changes, lemma_after_parts, log_after, on_data, on_log, Demand,
};
use crate::shape::{lemma_shape_ok, shape_of, storable};
use crate::storage::{changed_all, written, Change};
use crate::store::{lemma_sound, sound};
use crate::wal::{abort_record, commit_record, delete_record, insert_record, LogEntry};
use crate::wal_laws::{
    all_fit, law_log_round_trip, lemma_joins_log, lemma_written_end, log_bytes, read_back,
};

verus! {

/// A crash while a database is being opened loses nothing that its log commits: however far the
/// requests of opening it have been carried out, it is opened once more with the same keys and
/// values, if doing the log twice takes out the same keys as doing it once. The log is cut only
/// when the data file holds all that it commits, and has been forced to disk.
pub proof fn law_open_survives(
    data: Seq<u8>,
    log: Seq<u8>,
    path: Seq<char>,
    db: &Database,
    again: &Database,
    n: int,
)
    requires
        sound(start_pages(data), root_of(start_pages(data))),
        openable(data, log, true),
        opened(db, path, true, data, log),
        0 <= n <= db.requests().len(),
        ({
            let d = data_after(data, db.requests().take(n));
            let l = log_after(log, db.requests().take(n));
            let s = shape_of(start_pages(data), root_of(start_pages(data)));
            let ops = log_ops(log, true);
            &&& d == data || d == db.file_bytes()
            &&& openable(d, l, true)
            &&& opened(again, path, true, d, l)
            &&& forall|k: Seq<u8>| #[trigger]
                fate(s, ops, k) is Gone <==> fate(run(s, ops), ops, k) is Gone
        }),
    ensures
        again.shape().map() == db.shape().map(),
        log_after(log, db.requests().take(n)) == log || log_after(log, db.requests().take(n))
            == Seq::<u8>::empty() && data_after(data, db.requests().take(n)) == db.file_bytes(),
        forall|x: int, y: int|
            0 <= x < y < db.requests().len() && #[trigger] db.requests()[x] is Data
                && db.requests()[x] != Demand::Data(Change::Sync)
                && #[trigger] db.requests()[y] is Log ==> exists|z: int|
                x < z < y && #[trigger] db.requests()[z] == Demand::Data(Change::Sync),
{
    reveal(in_order);
    let p = start_pages(data);
    let s = shape_of(p, root_of(p));
    let ops = log_ops(log, true);
    let d = data_after(data, db.requests().take(n));
    let l = log_after(log, db.requests().take(n));
    lemma_shape_ok(p, root_of(p));
    lemma_sound(db.pages(), db.root());
    lemma_valid_not_empty(db.file_bytes());
    if l == log {
        if d != data && ops.len() > 0 {
            law_replay_again(s, ops);
        }
    } else {
        assert(log_ops(l, true) =~= Seq::<Op>::empty());
    }
}

/// The requests that a call added.
pub open spec fn added(before: &Database, after: &Database) -> Seq<Demand> {
    after.requests().skip(before.requests().len() as int)
}

/// Requests in three parts, of which the first and the last are on the log file and the second on
/// the data file, as far as they have been carried out.
proof fn lemma_three_parts(
    data: Seq<u8>,
    log: Seq<u8>,
    a: Seq<Change>,
    m: Seq<Change>,
    c: Seq<Change>,
    n: int,
)
    requires
        0 <= n <= a.len() + m.len() + c.len(),
    ensures
        ({
            let ds = (on_log(a) + on_data(m) + on_log(c)).take(n);
            let i = a.len() as int;
            let j = i + m.len();
            &&& n <= i ==> log_after(log, ds) == changed_all(log, a.take(n)) && data_after(data, ds)
                == data
            &&& i <= n <= j ==> log_after(log, ds) == changed_all(log, a) && data_after(data, ds)
                == changed_all(data, m.take(n - i))
            &&& j <= n ==> log_after(log, ds) == changed_all(changed_all(log, a), c.take(n - j))
                && data_after(data, ds) == changed_all(data, m)
        }),
{
    let all = on_log(a) + on_data(m) + on_log(c);
    let ds = all.take(n);
    let i = a.len() as int;
    let j = i + m.len();
    if n <= i {
        assert(ds =~= on_log(a.take(n)));
        lemma_after_changes(log, a.take(n));
        lemma_after_changes(data, a.take(n));
        if n == i {
            assert(a.take(n) =~= a);
            assert(m.take(0) =~= Seq::<Change>::empty());
            if m.len() == 0 {
                assert(m =~= Seq::<Change>::empty());
                assert(c.take(0) =~= Seq::<Change>::empty());
            }
        }
    } else if n <= j {
        let q = m.take(n - i);
        assert(ds =~= on_log(a) + on_data(q));
        lemma_after_parts(log, on_log(a), on_data(q));
        lemma_after_parts(data, on_log(a), on_data(q));
        lemma_after_changes(log, a);
        lemma_after_changes(data, a);
        lemma_after_changes(data, q);
        lemma_after_changes(changed_all(log, a), q);
        if n == j {
            assert(q =~= m);
            assert(c.take(0) =~= Seq::<Change>::empty());
        }
    } else {
        let q = c.take(n - j);
        assert(ds =~= on_log(a) + on_data(m) + on_log(q));
        lemma_after_parts(log, on_log(a) + on_data(m), on_log(q));
        lemma_after_parts(data, on_log(a) + on_data(m), on_log(q));
        lemma_after_parts(log, on_log(a), on_data(m));
        lemma_after_parts(data, on_log(a), on_data(m));
        lemma_after_changes(log, a);
        lemma_after_changes(data, a);
        lemma_after_changes(data, m);
        lemma_after_changes(changed_all(log, a), m);
        lemma_after_changes(changed_all(log, a), q);
        lemma_after_changes(changed_all(data, m), q);
    }
}

/// The log of a single change that is committed at once, in full and after its first part.
proof fn lemma_single_log(before: &Database, x: Op)
    requires
        before.wf(),
        !before.in_transaction(),
        before.wal() is Some,
        tellable(x),
    ensures
        ({
            let w = before.wal()->0;
            let e = record_of(x);
            let a1 = Change::Write(w.offset(), e.encoded());
            let a2 = Change::Write(w.offset() + e.step(), commit_record().encoded());
            let cs = seq![a1, a2];
            let log = log_bytes(records_of(seq![x]).push(commit_record()));
            &&& logging(before.wal(), e, true) == on_log(cs)
            &&& changed_all(before.log_bytes(), cs) == log
            &&& log_after(before.log_bytes(), on_log(cs)) == log
            &&& changed_all(before.log_bytes(), cs.take(1)) == log.take(e.encoded().len() as int)
            &&& e.encoded().len() < log.len()
            &&& log_ops(log, true) == seq![x]
        }),
{
    let w = before.wal()->0;
    let e = record_of(x);
    let c = commit_record();
    let a1 = Change::Write(w.offset(), e.encoded());
    let a2 = Change::Write(w.offset() + e.step(), c.encoded());
    let cs = seq![a1, a2];
    let b1 = written(Seq::empty(), 0, e.encoded());
    let rs = seq![e];
    let none = Seq::<LogEntry>::empty();
    let log = log_bytes(records_of(seq![x]).push(c));
    assert(log_bytes(none) =~= Seq::<u8>::empty());
    lemma_joins_log(&w, b1, none, e);
    assert(none.push(e) =~= rs);
    lemma_after_changes(Seq::empty(), cs);
    assert(cs.drop_last() =~= seq![a1]);
    assert(cs.take(1) =~= seq![a1]);
    assert(seq![a1].drop_last() =~= Seq::<Change>::empty());
    reveal_with_fuel(changed_all, 3);
    lemma_written_end(b1, c.encoded());
    lemma_written_end(Seq::empty(), e.encoded());
    assert(rs.push(c).drop_last() =~= rs);
    assert(records_of(seq![x]) =~= rs);
    assert(log =~= b1 + c.encoded());
    assert(b1 =~= e.encoded());
    assert(log.take(e.encoded().len() as int) =~= e.encoded());
    c.header(crate::wal::crc32(c.covered())).lemma_encoded_len();
    law_replay_transaction(seq![x], Seq::empty(), Seq::empty());
    assert(records_of(seq![x]).push(c) + records_of(Seq::empty()) =~= records_of(seq![x]).push(c));
    assert(log + Seq::<u8>::empty() =~= log);
}

/// A change outside a transaction, however far its requests have been carried out.
proof fn lemma_change_survives(
    before: &Database,
    after: &Database,
    again: &Database,
    path: Seq<char>,
    x: Op,
    n: int,
)
    requires
        before.wf(),
        before.sound(),
        !before.in_transaction(),
        before.wal() is Some,
        tellable(x),
        acceptable(x),
        has_room(before.shape(), x),
        x matches Op::Delete(k) ==> !before.shape().keeps(k),
        after.wf(),
        after.sound(),
        after.shape() == step(before.shape(), x),
        after.logged_change(before, record_of(x)),
        0 <= n <= added(before, after).len(),
        ({
            let d = data_after(before.file_bytes(), added(before, after).take(n));
            let l = log_after(before.log_bytes(), added(before, after).take(n));
            &&& d == before.file_bytes() || d == after.file_bytes()
            &&& openable(d, l, true)
            &&& opened(again, path, true, d, l)
        }),
    ensures
        again.shape().map() == before.shape().map() || again.shape().map() == after.shape().map(),
        (exists|i: int| 0 <= i < n && #[trigger] added(before, after)[i] is Data)
            ==> again.shape().map() == after.shape().map(),
        n == added(before, after).len() ==> again.shape().map() == after.shape().map(),
        forall|i: int, j: int|
            0 <= i < j < added(before, after).len() && #[trigger] added(before, after)[i] is Data
                && added(before, after)[i] != Demand::Data(Change::Sync)
                && #[trigger] added(before, after)[j] is Log ==> exists|z: int|
                i < z < j && #[trigger] added(before, after)[z] == Demand::Data(Change::Sync),
        forall|i: int, j: int|
            0 <= i < j < added(before, after).len() && #[trigger] added(before, after)[i] is Data
                && #[trigger] added(before, after)[j] is Log ==> added(before, after)[j]
                == Demand::Log(Change::SetLen(0)),
{
    let ds = added(before, after);
    let w = before.wal()->0;
    let e = record_of(x);
    let a1 = Change::Write(w.offset(), e.encoded());
    let a2 = Change::Write(w.offset() + e.step(), commit_record().encoded());
    let a = seq![a1, a2];
    let c = seq![Change::SetLen(0)];
    let ws = choose|ws: Seq<Change>| #[trigger]
        changed_all(before.file_bytes(), ws) == after.file_bytes() && after.requests()
            == before.requests() + logging(before.wal(), e, true) + on_data(ws.push(Change::Sync))
            + clearing(before.wal());
    let m = ws.push(Change::Sync);
    let log = log_bytes(records_of(seq![x]).push(commit_record()));
    let d = data_after(before.file_bytes(), ds.take(n));
    let l = log_after(before.log_bytes(), ds.take(n));
    lemma_single_log(before, x);
    lemma_single_log(after, x);
    assert(ds =~= on_log(a) + on_data(m) + on_log(c));
    assert(m.drop_last() =~= ws);
    lemma_three_parts(before.file_bytes(), before.log_bytes(), a, m, c, n);
    lemma_set_len_zero(log);
    lemma_shape_ok(before.pages(), before.root());
    lemma_shape_ok(after.pages(), after.root());
    lemma_step(before.shape(), x);
    lemma_sound(before.pages(), before.root());
    lemma_sound(after.pages(), after.root());
    lemma_valid_not_empty(before.file_bytes());
    lemma_valid_not_empty(after.file_bytes());
    let j = 2 + m.len();
    if n < 2 {
        assert(a.take(0) =~= Seq::<Change>::empty());
        let q = if n == 0 {
            0
        } else {
            e.encoded().len() as int
        };
        assert(log.take(0) =~= Seq::<u8>::empty());
        assert(l == log.take(q));
        law_change_survives(before, again, path, x, q);
    } else if n <= j {
        assert(a.take(2) =~= a);
        assert(l == log);
        assert(log.take(log.len() as int) =~= log);
        if d == after.file_bytes() {
            law_change_survives(after, again, path, x, log.len() as int);
            let s = after.shape();
            assert(has_room(run(s, seq![x].take(0)), seq![x][0])) by {
                assert(seq![x].take(0) =~= Seq::<Op>::empty());
                assert(all_acceptable(seq![x].take(1)));
            }
            assert(seq![x].take(0) =~= Seq::<Op>::empty());
            lemma_step(s, x);
            match x {
                Op::Insert(k, v) => {
                    assert(s.map().insert(k, v) =~= s.map());
                },
                Op::Delete(k) => {
                    assert(s.map().remove(k) =~= s.map());
                },
            }
        }
        if d == before.file_bytes() {
            law_change_survives(before, again, path, x, log.len() as int);
        }
    } else {
        assert(c.take(1) =~= c);
        assert(log_ops(l, true) =~= Seq::<Op>::empty());
    }
    assert forall|i: int, y: int|
        0 <= i < y < ds.len() && #[trigger] ds[i] is Data && ds[i] != Demand::Data(Change::Sync)
            && #[trigger] ds[y] is Log implies exists|z: int|
        i < z < y && #[trigger] ds[z] == Demand::Data(Change::Sync) by {
        assert(ds[j - 1] == Demand::Data(m[m.len() - 1]));
        if i < 2 {
            assert(ds[i] == Demand::Log(a[i]));
        }
        if 2 <= y < j {
            assert(ds[y] == Demand::Data(m[y - 2]));
        }
    }
    assert forall|i: int, y: int|
        0 <= i < y < ds.len() && #[trigger] ds[i] is Data && #[trigger] ds[y] is Log implies ds[y]
        == Demand::Log(Change::SetLen(0)) by {
        if i < 2 {
            assert(ds[i] == Demand::Log(a[i]));
        }
        if y < j {
            assert(ds[y] == Demand::Data(m[y - 2]));
        } else {
            assert(ds[y] == Demand::Log(c[0]));
        }
    }
    if exists|i: int| 0 <= i < n && #[trigger] ds[i] is Data {
        let i = choose|i: int| 0 <= i < n && #[trigger] ds[i] is Data;
        if i < 2 {
            assert(ds[i] == Demand::Log(a[i]));
        }
    }
}

/// A put outside a transaction is done as a whole or not at all: however far its requests have been
/// carried out, the database is opened with the keys and values from before or with those from
/// after. With those from after as soon as a page may have been written. The log is cut only when
/// the pages have been written and forced to disk, and nothing else is logged behind them.
pub proof fn law_put_survives(
    before: &Database,
    after: &Database,
    again: &Database,
    path: Seq<char>,
    k: Seq<u8>,
    v: Seq<u8>,
    n: int,
)
    requires
        before.wf(),
        !before.in_transaction(),
        before.wal() is Some,
        storable(k, v),
        before.can_put(k, v),
        after.wf(),
        after.sound(),
        after.shape() == before.shape().with(k, v),
        after.logged_change(before, insert_record(k, v)),
        0 <= n <= added(before, after).len(),
        ({
            let d = data_after(before.file_bytes(), added(before, after).take(n));
            let l = log_after(before.log_bytes(), added(before, after).take(n));
            &&& d == before.file_bytes() || d == after.file_bytes()
            &&& openable(d, l, true)
            &&& opened(again, path, true, d, l)
        }),
    ensures
        again.shape().map() == before.shape().map() || again.shape().map() == after.shape().map(),
        (exists|i: int| 0 <= i < n && #[trigger] added(before, after)[i] is Data)
            ==> again.shape().map() == after.shape().map(),
        n == added(before, after).len() ==> again.shape().map() == after.shape().map(),
        forall|i: int, j: int|
            0 <= i < j < added(before, after).len() && #[trigger] added(before, after)[i] is Data
                && added(before, after)[i] != Demand::Data(Change::Sync)
                && #[trigger] added(before, after)[j] is Log ==> exists|z: int|
                i < z < j && #[trigger] added(before, after)[z] == Demand::Data(Change::Sync),
        forall|i: int, j: int|
            0 <= i < j < added(before, after).len() && #[trigger] added(before, after)[i] is Data
                && #[trigger] added(before, after)[j] is Log ==> added(before, after)[j]
                == Demand::Log(Change::SetLen(0)),
{
    lemma_change_survives(before, after, again, path, Op::Insert(k, v), n);
}

/// The same, of a deletion.
pub proof fn law_delete_survives(
    before: &Database,
    after: &Database,
    again: &Database,
    path: Seq<char>,
    k: Seq<u8>,
    n: int,
)
    requires
        before.wf(),
        before.sound(),
        !before.in_transaction(),
        before.wal() is Some,
        1 <= k.len() <= 1024,
        !before.shape().keeps(k),
        after.wf(),
        after.sound(),
        after.shape() == before.shape().without(k),
        after.logged_change(before, delete_record(k)),
        0 <= n <= added(before, after).len(),
        ({
            let d = data_after(before.file_bytes(), added(before, after).take(n));
            let l = log_after(before.log_bytes(), added(before, after).take(n));
            &&& d == before.file_bytes() || d == after.file_bytes()
            &&& openable(d, l, true)
            &&& opened(again, path, true, d, l)
        }),
    ensures
        again.shape().map() == before.shape().map() || again.shape().map() == after.shape().map(),
        (exists|i: int| 0 <= i < n && #[trigger] added(before, after)[i] is Data)
            ==> again.shape().map() == after.shape().map(),
        n == added(before, after).len() ==> again.shape().map() == after.shape().map(),
        forall|i: int, j: int|
            0 <= i < j < added(before, after).len() && #[trigger] added(before, after)[i] is Data
                && added(before, after)[i] != Demand::Data(Change::Sync)
                && #[trigger] added(before, after)[j] is Log ==> exists|z: int|
                i < z < j && #[trigger] added(before, after)[z] == Demand::Data(Change::Sync),
        forall|i: int, j: int|
            0 <= i < j < added(before, after).len() && #[trigger] added(before, after)[i] is Data
                && #[trigger] added(before, after)[j] is Log ==> added(before, after)[j]
                == Demand::Log(Change::SetLen(0)),
{
    lemma_change_survives(before, after, again, path, Op::Delete(k), n);
}

/// Within a transaction a change is written to the log file alone, and only where it ends.
pub proof fn law_transaction_logs(before: &Database, after: &Database, e: LogEntry)
    requires
        before.wf(),
        before.in_transaction(),
        after.logged_change(before, e),
    ensures
        after.file_bytes() == before.file_bytes(),
        before.wal() is None ==> added(before, after) == Seq::<Demand>::empty(),
        before.wal() is Some ==> added(before, after) == seq![
            Demand::Log(Change::Write(before.log_bytes().len() as int, e.encoded())),
        ],
        before.wal() is Some ==> after.log_bytes() == before.log_bytes() + e.encoded(),
{
    let ds = added(before, after);
    if let Some(w) = before.wal() {
        let rs = choose|rs: Seq<LogEntry>| holds_changes(&w, rs);
        assert(holds_changes(&w, rs));
        assert(ds =~= on_log(seq![Change::Write(w.offset(), e.encoded())]));
        assert(ds =~= seq![Demand::Log(Change::Write(w.offset(), e.encoded()))]);
        lemma_written_end(w.bytes(), e.encoded());
    } else {
        assert(ds =~= Seq::<Demand>::empty());
    }
}

/// A commit is done as a whole or not at all: however far its requests have been carried out, the
/// database is opened as it was when the transaction began, or with the keys and values that the
/// transaction left, if doing its changes twice takes out the same keys as doing them once. With
/// the latter as soon as the log has been forced to disk, which happens before the first page is
/// written. The log is cut only when the pages have been written and forced to disk.
pub proof fn law_commit_survives(
    before: &Database,
    now: &Database,
    after: &Database,
    again: &Database,
    path: Seq<char>,
    xs: Seq<Op>,
    n: int,
)
    requires
        !before.in_transaction(),
        during(before, now, xs),
        all_acceptable(xs),
        run_fits(before.shape(), xs),
        forall|k: Seq<u8>| #[trigger]
            fate(before.shape(), xs, k) is Gone <==> fate(now.shape(), xs, k) is Gone,
        now.wf(),
        after.wf(),
        !after.in_transaction(),
        after.pages() == now.pages(),
        after.root() == now.root(),
        after.flushed(now, committing(now.wal()), clearing(now.wal())),
        0 <= n <= added(now, after).len(),
        ({
            let d = data_after(now.file_bytes(), added(now, after).take(n));
            let l = log_after(now.log_bytes(), added(now, after).take(n));
            &&& d == before.file_bytes() || d == after.file_bytes()
            &&& openable(d, l, true)
            &&& opened(again, path, true, d, l)
        }),
    ensures
        again.shape().map() == before.shape().map() || again.shape().map() == now.shape().map(),
        (exists|i: int| 0 <= i < n && #[trigger] added(now, after)[i] == Demand::Log(Change::Sync))
            ==> again.shape().map() == now.shape().map(),
        n == added(now, after).len() ==> again.shape().map() == now.shape().map(),
        forall|j: int|
            0 <= j < added(now, after).len() && #[trigger] added(now, after)[j] is Data
                ==> exists|z: int|
                0 <= z < j && #[trigger] added(now, after)[z] == Demand::Log(Change::Sync),
        forall|i: int, j: int|
            0 <= i < j < added(now, after).len() && #[trigger] added(now, after)[i] is Data
                && added(now, after)[i] != Demand::Data(Change::Sync) && #[trigger] added(
                now,
                after,
            )[j] is Log ==> exists|z: int|
                i < z < j && #[trigger] added(now, after)[z] == Demand::Data(Change::Sync),
{
    let ds = added(now, after);
    let w = now.wal()->0;
    let rs = records_of(xs).push(commit_record());
    let a1 = Change::Write(w.offset(), commit_record().encoded());
    let a = seq![a1, Change::Sync];
    let c = seq![Change::SetLen(0)];
    let ws = choose|ws: Seq<Change>| #[trigger]
        changed_all(now.file_bytes(), ws) == after.file_bytes() && after.requests()
            == now.requests() + committing(now.wal()) + on_data(ws.push(Change::Sync)) + clearing(
            now.wal(),
        );
    let m = ws.push(Change::Sync);
    let j = 2 + m.len();
    let log = log_bytes(rs);
    let d = data_after(now.file_bytes(), ds.take(n));
    let l = log_after(now.log_bytes(), ds.take(n));
    assert(ds =~= on_log(a) + on_data(m) + on_log(c));
    assert(m.drop_last() =~= ws);
    lemma_three_parts(now.file_bytes(), now.log_bytes(), a, m, c, n);
    lemma_set_len_zero(log);
    lemma_shape_ok(before.pages(), before.root());
    lemma_shape_ok(after.pages(), after.root());
    lemma_sound(before.pages(), before.root());
    lemma_sound(after.pages(), after.root());
    lemma_valid_not_empty(before.file_bytes());
    lemma_valid_not_empty(after.file_bytes());
    lemma_joins_log(
        &w,
        written(w.bytes(), w.offset(), commit_record().encoded()),
        records_of(xs),
        commit_record(),
    );
    assert(a.drop_last() =~= seq![a1]);
    assert(a.take(1) =~= seq![a1]);
    assert(a.take(2) =~= a);
    assert(seq![a1].drop_last() =~= Seq::<Change>::empty());
    reveal_with_fuel(changed_all, 3);
    assert(changed_all(w.bytes(), a) == log);
    assert(changed_all(w.bytes(), a.take(1)) == log);
    lemma_after_changes(w.bytes(), a);
    if n == 0 {
        assert(a.take(0) =~= Seq::<Change>::empty());
        let all = now.log_bytes().len() as int;
        assert(now.log_bytes().take(all) =~= now.log_bytes());
        law_crash_in_transaction(before, now, again, path, all);
    } else if n <= j {
        assert(l == log);
        assert(log.take(log.len() as int) =~= log);
        if d == before.file_bytes() {
            law_transaction_survives(before, now, again, path, xs, log.len() as int);
        } else {
            assert(log + Seq::<u8>::empty() =~= log);
            law_crash_after_commit(after, again, path, xs, Seq::empty());
            law_replay_transaction(xs, Seq::empty(), Seq::empty());
            assert(rs + records_of(Seq::empty()) =~= rs);
            if xs.len() > 0 {
                law_replay_again(before.shape(), xs);
            }
        }
    } else {
        assert(c.take(1) =~= c);
        assert(log_ops(l, true) =~= Seq::<Op>::empty());
    }
    assert(ds[1] == Demand::Log(Change::Sync));
    assert(ds[0] == Demand::Log(a1));
    assert forall|i: int, y: int|
        0 <= i < y < ds.len() && #[trigger] ds[i] is Data && ds[i] != Demand::Data(Change::Sync)
            && #[trigger] ds[y] is Log implies exists|z: int|
        i < z < y && #[trigger] ds[z] == Demand::Data(Change::Sync) by {
        assert(ds[j - 1] == Demand::Data(m[m.len() - 1]));
        if i < 2 {
            assert(ds[i] == Demand::Log(a[i]));
        }
        if 2 <= y < j {
            assert(ds[y] == Demand::Data(m[y - 2]));
        }
    }
    assert forall|y: int| 0 <= y < ds.len() && #[trigger] ds[y] is Data implies exists|z: int|
        0 <= z < y && #[trigger] ds[z] == Demand::Log(Change::Sync) by {
        if y < 2 {
            assert(ds[y] == Demand::Log(a[y]));
        }
    }
}

/// Records of changes, and an abort behind them, commit nothing.
proof fn lemma_aborted_log(now: &Database)
    requires
        now.wf(),
        now.in_transaction(),
        now.wal() is Some,
    ensures
        ({
            let w = now.wal()->0;
            log_ops(written(w.bytes(), w.offset(), abort_record().encoded()), true) == Seq::<
                Op,
            >::empty()
        }),
{
    let w = now.wal()->0;
    let l = written(w.bytes(), w.offset(), abort_record().encoded());
    let rs = choose|rs: Seq<LogEntry>| holds_changes(&w, rs);
    let qs = rs.push(abort_record());
    lemma_joins_log(&w, l, rs, abort_record());
    assert(all_fit(qs)) by {
        assert forall|i: int| 0 <= i < qs.len() implies (#[trigger] qs[i]).fits() by {
            if i < rs.len() {
                assert(rs[i].fits());
            }
        }
    }
    assert(l =~= log_bytes(qs) + Seq::<u8>::empty());
    law_log_round_trip(qs, Seq::empty());
    lemma_no_commit(read_back(qs));
    if has_commit(read_back(qs)) {
        let i = choose|i: int|
            0 <= i < read_back(qs).len() && (#[trigger] read_back(qs)[i]).kind
                == WalRecordType::Commit;
        if i < rs.len() {
            assert(is_change(rs[i]));
        }
    }
}

/// The files when the requests of an abort have been carried out so far.
proof fn lemma_abort_files(now: &Database, ds: Seq<Demand>, n: int)
    requires
        now.wf(),
        now.in_transaction(),
        now.wal() is Some,
        ds == aborting(now.wal()),
        0 <= n <= ds.len(),
    ensures
        data_after(now.file_bytes(), ds.take(n)) == now.file_bytes(),
        log_ops(log_after(now.log_bytes(), ds.take(n)), true) == Seq::<Op>::empty(),
        n == ds.len() ==> log_after(now.log_bytes(), ds.take(n)) == Seq::<u8>::empty(),
        forall|i: int| 0 <= i < ds.len() ==> #[trigger] ds[i] is Log,
{
    let w = now.wal()->0;
    let a1 = Change::Write(w.offset(), abort_record().encoded());
    let a = seq![a1, Change::SetLen(0)];
    let b = w.bytes();
    assert(ds =~= on_log(a));
    assert(ds.take(n) =~= on_log(a.take(n)));
    lemma_after_changes(now.file_bytes(), a.take(n));
    lemma_after_changes(b, a.take(n));
    if n == 0 {
        assert(a.take(0) =~= Seq::<Change>::empty());
        assert(b.take(b.len() as int) =~= b);
        lemma_logs_no_commit(now, b.len() as int);
    } else {
        assert(a.take(1).drop_last() =~= Seq::<Change>::empty());
        assert(changed_all(b, a.take(1).drop_last()) == b);
        assert(changed_all(b, a.take(1)) == written(b, w.offset(), abort_record().encoded()));
        lemma_aborted_log(now);
        if n == 2 {
            assert(a.take(2).drop_last() =~= a.take(1));
            assert(changed_all(b, a.take(2)) =~= Seq::<u8>::empty());
            assert(log_ops(Seq::empty(), true) =~= Seq::<Op>::empty());
        }
    }
}

/// However far the requests of an abort have been carried out, the database is opened as it was
/// when the transaction began, and the data file is not touched.
pub proof fn law_abort_survives(
    before: &Database,
    now: &Database,
    after: &Database,
    again: &Database,
    path: Seq<char>,
    n: int,
)
    requires
        before.wf(),
        before.sound(),
        !before.in_transaction(),
        now.wf(),
        now.in_transaction(),
        now.wal() is Some,
        now.file_bytes() == before.file_bytes(),
        after.requests() == now.requests() + aborting(now.wal()),
        0 <= n <= added(now, after).len(),
        opened(
            again,
            path,
            true,
            data_after(now.file_bytes(), added(now, after).take(n)),
            log_after(now.log_bytes(), added(now, after).take(n)),
        ),
    ensures
        again.pages() == before.pages(),
        again.root() == before.root(),
        again.entries() == before.entries(),
        forall|i: int| 0 <= i < added(now, after).len() ==> #[trigger] added(now, after)[i] is Log,
        log_after(now.log_bytes(), added(now, after)) == Seq::<u8>::empty(),
{
    let ds = added(now, after);
    assert(ds =~= aborting(now.wal()));
    lemma_abort_files(now, ds, n);
    lemma_abort_files(now, ds, ds.len() as int);
    assert(ds.take(ds.len() as int) =~= ds);
    lemma_sound(before.pages(), before.root());
    lemma_valid_not_empty(before.file_bytes());
}

/// However far the requests of a compaction have been carried out, the database is opened with the
/// pairs that it had. The log is cut only when the new file is in its place.
pub proof fn law_compact_survives(
    before: &Database,
    after: &Database,
    st: Stats,
    again: &Database,
    path: Seq<char>,
    enable_wal: bool,
    n: int,
)
    requires
        before.wf(),
        before.sound(),
        !before.in_transaction(),
        compacted(before, after, st),
        0 <= n <= added(before, after).len(),
        opened(
            again,
            path,
            enable_wal,
            data_after(before.file_bytes(), added(before, after).take(n)),
            log_after(before.log_bytes(), added(before, after).take(n)),
        ),
    ensures
        again.entries() == before.entries(),
        data_after(before.file_bytes(), added(before, after).take(n)) == before.file_bytes()
            || data_after(before.file_bytes(), added(before, after).take(n)) == after.file_bytes(),
        forall|i: int|
            0 <= i < added(before, after).len() && #[trigger] added(before, after)[i] is Log
                ==> data_after(before.file_bytes(), added(before, after).take(i))
                == after.file_bytes(),
{
    let ds = added(before, after);
    let r = Demand::Replace(after.file_bytes());
    let b = before.file_bytes();
    let d = data_after(b, ds.take(n));
    let l = log_after(before.log_bytes(), ds.take(n));
    let c = clearing(before.wal());
    assert(ds =~= seq![r] + c);
    assert(seq![r].drop_last() =~= Seq::<Demand>::empty());
    reveal_with_fuel(data_after, 2);
    reveal_with_fuel(log_after, 2);
    lemma_sound(before.pages(), before.root());
    lemma_sound(after.pages(), after.root());
    lemma_valid_not_empty(before.file_bytes());
    lemma_valid_not_empty(after.file_bytes());
    assert(before.log_bytes() =~= Seq::<u8>::empty());
    assert(ds.take(0) =~= Seq::<Demand>::empty());
    assert(ds.take(1) =~= seq![r]);
    if n >= 2 {
        assert(ds.take(n) =~= seq![r] + c);
        lemma_after_parts(b, seq![r], c);
        lemma_after_parts(before.log_bytes(), seq![r], c);
        lemma_after_changes(after.file_bytes(), seq![Change::SetLen(0)]);
        lemma_after_changes(before.log_bytes(), seq![Change::SetLen(0)]);
        lemma_set_len_zero(before.log_bytes());
    }
    assert(log_ops(l, enable_wal) =~= Seq::<Op>::empty());
}

} // verus!
