//! What the calls of a database do: to its log, to its files and to the requests for them.
use vstd::prelude::*;
use crate::bytes::{le32, le64};
use crate::constants::{MetaData, PageId, MAX_KEY_SIZE, META_PAGE_ID};
use crate::database::{Database, Stats};
use crate::entries::Entry;
use crate::error::Result;
use crate::export::{
    ending_from, header_error, header_ok, is_short_read, pairs_from, Item, EXPORT_HEADER_SIZE,
};
use crate::pager::{
    file_pages, free_list, fresh_pages, meta_of, opened_next, same_settings, Pager, Pages,
};
use crate::replay::{
    all_acceptable, can_run, committed, has_room as run_has_room, inserts_of, is_change, run,
    run_fits, Op,
};
use crate::requests::{
    data_after, lemma_after_changes, lemma_after_parts, log_after, on_data, on_log, Demand,
};
use crate::shape::{empty_shape, lemma_fresh_sound, shape_of, storable};
use crate::space::in_step;
use crate::storage::{changed, changed_all, written, Change};
use crate::store::{lemma_sound, sound};
use crate::wal::{abort_record, commit_record, insert_record, read_from, LogEntry, Wal};
use crate::wal_laws::{all_fit, holds_log, lemma_joins_log, log_bytes};

verus! {

/// The metadata leave a number for the next page.
pub open spec fn numbered(pages: Pages) -> bool {
    meta_of(pages).valid() ==> meta_of(pages).last_page_id < u64::MAX
}

/// The page at which the tree begins, by the metadata.
pub open spec fn root_of(pages: Pages) -> PageId {
    meta_of(pages).root_page
}

/// The key has a size that can be stored.
pub open spec fn valid_key(k: Seq<u8>) -> bool {
    0 < k.len() <= MAX_KEY_SIZE
}

/// The number of pages, and their size in bytes, can be told.
pub open spec fn sized(m: MetaData) -> bool {
    m.last_page_id < u64::MAX && (m.last_page_id + 1) * m.page_size <= u64::MAX
}

/// The pages with which a database starts, given what its data file holds.
pub open spec fn start_pages(data: Seq<u8>) -> Pages {
    if data.len() == 0 {
        fresh_pages()
    } else {
        file_pages(data)
    }
}

/// The changes that the records of a log commit; none where it is spoiled.
pub open spec fn ops_of(rs: Option<Seq<LogEntry>>) -> Seq<Op> {
    match rs {
        Some(rs) => committed(rs),
        None => Seq::empty(),
    }
}

/// The changes that the log, where there is one, commits.
pub open spec fn replayable(w: Option<Wal>) -> Seq<Op> {
    match w {
        Some(w) => ops_of(w.records()),
        None => Seq::empty(),
    }
}

/// The changes that opening a database makes, given what its log file holds.
pub open spec fn log_ops(log: Seq<u8>, enable_wal: bool) -> Seq<Op> {
    if enable_wal {
        ops_of(read_from(log, 0, log.len() as int))
    } else {
        Seq::empty()
    }
}

/// An empty log commits nothing.
pub proof fn lemma_empty_log(log: Seq<u8>)
    requires
        log.len() == 0,
    ensures
        log == Seq::<u8>::empty(),
        log_ops(log, true) == Seq::<Op>::empty(),
{
}

/// The database can be opened: the changes that its log commits can be made.
pub open spec fn openable(data: Seq<u8>, log: Seq<u8>, enable_wal: bool) -> bool {
    let p = start_pages(data);
    (data.len() == 0 || numbered(p)) && can_run(p, root_of(p), log_ops(log, enable_wal))
}

/// What was written to the data file is forced to disk before the log file is changed.
pub open spec fn synced(ds: Seq<Demand>) -> bool {
    forall|x: int, y: int|
        0 <= x < y < ds.len() && #[trigger] ds[x] is Data && ds[x] != Demand::Data(Change::Sync)
            && #[trigger] ds[y] is Log ==> exists|z: int|
            x < z < y && #[trigger] ds[z] == Demand::Data(Change::Sync)
}

/// However far the requests have been carried out, the log file is as it was, or it is empty and
/// the data file holds all that it should.
#[verifier::opaque]
pub open spec fn in_order(data: Seq<u8>, log: Seq<u8>, ds: Seq<Demand>, end: Seq<u8>) -> bool {
    &&& forall|n: int|
        0 <= n <= ds.len() ==> log_after(log, #[trigger] ds.take(n)) == log || log_after(
            log,
            ds.take(n),
        ) == Seq::<u8>::empty() && data_after(data, ds.take(n)) == end
    &&& synced(ds)
}

/// The changes to a file end with one that forces them to disk.
pub open spec fn ends_synced(cs: Seq<Change>) -> bool {
    cs.len() > 0 ==> cs.last() == Change::Sync
}

/// Changes to the data file, then one to the log file.
pub proof fn lemma_in_order(data: Seq<u8>, log: Seq<u8>, cs: Seq<Change>, w: Option<Wal>, cut: bool)
    requires
        ends_synced(cs),
    ensures
        in_order(
            data,
            log,
            on_data(cs) + (if cut {
                clearing(w)
            } else {
                Seq::empty()
            }),
            changed_all(data, cs),
        ),
{
    reveal(in_order);
    let first = on_data(cs);
    let last = if cut {
        clearing(w)
    } else {
        Seq::empty()
    };
    let ds = first + last;
    let m = cs.len() as int;
    assert forall|n: int| 0 <= n <= ds.len() implies log_after(log, #[trigger] ds.take(n)) == log
        || log_after(log, ds.take(n)) == Seq::<u8>::empty() && data_after(data, ds.take(n))
        == changed_all(data, cs) by {
        if n <= m {
            assert(ds.take(n) =~= on_data(cs.take(n)));
            lemma_after_changes(log, cs.take(n));
        } else {
            assert(ds.take(n) =~= first + last);
            lemma_after_parts(log, first, last);
            lemma_after_parts(data, first, last);
            lemma_after_changes(log, cs);
            lemma_after_changes(data, cs);
            lemma_after_changes(log, seq![Change::SetLen(0)]);
            lemma_after_changes(changed_all(data, cs), seq![Change::SetLen(0)]);
            lemma_set_len_zero(log);
        }
    }
    assert forall|x: int, y: int|
        0 <= x < y < ds.len() && #[trigger] ds[x] is Data && ds[x] != Demand::Data(Change::Sync)
            && #[trigger] ds[y] is Log implies exists|z: int|
        x < z < y && #[trigger] ds[z] == Demand::Data(Change::Sync) by {
        if y < m {
            assert(ds[y] == Demand::Data(cs[y]));
        }
        assert(ds[m - 1] == Demand::Data(cs[m - 1]));
    }
}

/// The database is that of the files, with what the log commits done.
pub open spec fn opened(
    db: &Database,
    path: Seq<char>,
    enable_wal: bool,
    data: Seq<u8>,
    log: Seq<u8>,
) -> bool {
    let p = start_pages(data);
    let ops = log_ops(log, enable_wal);
    &&& db.wf()
    &&& !db.in_transaction()
    &&& db.path() == path
    &&& all_acceptable(ops)
    &&& ops.len() == 0 ==> db.pages() == p && db.root() == root_of(p)
    &&& ops.len() > 0 ==> db.sound() && db.shape() == run(shape_of(p, root_of(p)), ops)
    &&& data.len() == 0 ==> db.sound()
    &&& data.len() == 0 && ops.len() == 0 ==> db.shape() == empty_shape()
    &&& same_settings(meta_of(p), meta_of(db.pages()))
    &&& in_order(data, log, db.requests(), db.file_bytes())
    &&& data_after(data, db.requests()) == db.file_bytes()
    &&& match db.wal() {
        Some(w) => {
            &&& enable_wal
            &&& w.path() == path + ".wal"@
            &&& w.bytes() == Seq::<u8>::empty()
            &&& w.offset() == 0
            &&& log_after(log, db.requests()) == Seq::<u8>::empty()
        },
        None => !enable_wal && log_after(log, db.requests()) == log,
    }
}

/// The log holds records of changes, all of which can be read back, and nothing else.
pub open spec fn logs_changes(w: &Wal) -> bool {
    exists|rs: Seq<LogEntry>| holds_changes(w, rs)
}

/// The records of changes that the log holds.
pub open spec fn holds_changes(w: &Wal, rs: Seq<LogEntry>) -> bool {
    &&& holds_log(w, rs)
    &&& all_fit(rs)
    &&& forall|i: int| 0 <= i < rs.len() ==> is_change(#[trigger] rs[i])
}

/// An empty log holds no change.
pub proof fn lemma_no_changes(w: &Wal)
    requires
        w.bytes() == Seq::<u8>::empty(),
        w.offset() == 0,
    ensures
        logs_changes(w),
{
    let rs = Seq::<LogEntry>::empty();
    assert(log_bytes(rs) =~= Seq::<u8>::empty());
    assert(holds_changes(w, rs));
}

/// The record of a change joins those of others.
pub proof fn lemma_one_change(before: &Wal, after: &Wal, e: LogEntry)
    requires
        logs_changes(before),
        appended(after, before, e, false),
        e.fits(),
        is_change(e),
    ensures
        logs_changes(after),
{
    let rs = choose|rs: Seq<LogEntry>| holds_changes(before, rs);
    let qs = rs.push(e);
    lemma_joins_log(before, after.bytes(), rs, e);
    assert forall|i: int| 0 <= i < qs.len() implies (#[trigger] qs[i]).fits() && is_change(
        qs[i],
    ) by {
        if i < rs.len() {
            assert(qs[i] == rs[i]);
            assert(rs[i].fits());
        }
    }
    assert(holds_changes(after, qs));
}

/// The number of records that a log holds; none in one that is spoiled.
pub open spec fn record_count(w: Option<Wal>) -> int {
    match w {
        Some(w) => match w.records() {
            Some(rs) => rs.len() as int,
            None => 0,
        },
        None => 0,
    }
}

/// The log has room for the record and, where it is committed at once, for the commit.
pub open spec fn log_room(w: Option<Wal>, e: LogEntry, commit: bool) -> bool {
    w matches Some(w) ==> w.has_room(e) && (commit ==> w.offset() + e.step()
        + commit_record().step() <= usize::MAX)
}

/// The log has room for the record that ends a transaction.
pub open spec fn ending_room(w: Option<Wal>) -> bool {
    w matches Some(w) ==> w.offset() + commit_record().step() <= usize::MAX
}

/// The record was written where the log ended, with or without a commit behind it.
pub open spec fn appended(w: &Wal, before: &Wal, e: LogEntry, commit: bool) -> bool {
    let b = written(before.bytes(), before.offset(), e.encoded());
    let o = before.offset() + e.step();
    &&& w.path() == before.path()
    &&& if commit {
        w.bytes() == written(b, o, commit_record().encoded()) && w.offset() == o
            + commit_record().step()
    } else {
        w.bytes() == b && w.offset() == o
    }
}

/// The requests that write the record to the log, where there is one, with or without a commit
/// behind it.
pub open spec fn logging(w: Option<Wal>, e: LogEntry, commit: bool) -> Seq<Demand> {
    match w {
        Some(w) => if commit {
            on_log(
                seq![
                    Change::Write(w.offset(), e.encoded()),
                    Change::Write(w.offset() + e.step(), commit_record().encoded()),
                ],
            )
        } else {
            on_log(seq![Change::Write(w.offset(), e.encoded())])
        },
        None => Seq::empty(),
    }
}

/// The requests that write a commit to the log, where there is one, and force it to disk.
pub open spec fn committing(w: Option<Wal>) -> Seq<Demand> {
    match w {
        Some(w) => on_log(
            seq![Change::Write(w.offset(), commit_record().encoded()), Change::Sync],
        ),
        None => Seq::empty(),
    }
}

/// The requests that write an abort to the log, where there is one, and empty it.
pub open spec fn aborting(w: Option<Wal>) -> Seq<Demand> {
    match w {
        Some(w) => on_log(
            seq![Change::Write(w.offset(), abort_record().encoded()), Change::SetLen(0)],
        ),
        None => Seq::empty(),
    }
}

/// The request that empties the log, where there is one.
pub open spec fn clearing(w: Option<Wal>) -> Seq<Demand> {
    match w {
        Some(_) => on_log(seq![Change::SetLen(0)]),
        None => Seq::empty(),
    }
}

/// How far the records of pairs move the log on.
pub open spec fn log_steps(s: Seq<Entry>) -> int
    decreases s.len(),
{
    if s.len() == 0 {
        0
    } else {
        log_steps(s.drop_last()) + insert_record(s.last().0, s.last().1).step()
    }
}

/// Where the log ends when the pairs have been put. Outside a transaction it is emptied each time.
pub open spec fn import_offset(w: Wal, in_transaction: bool, done: Seq<Entry>) -> int {
    if in_transaction {
        w.offset() + log_steps(done)
    } else if done.len() == 0 {
        w.offset()
    } else {
        0
    }
}

/// Carrying out the requests keeps the files in step with the database.
pub open spec fn keeps_up(before: &Database, after: &Database) -> bool {
    &&& forall|b: Seq<u8>| #[trigger]
        data_after(b, before.requests()) == before.file_bytes() ==> data_after(b, after.requests())
            == after.file_bytes()
    &&& match before.wal() {
        Some(v) => after.wal() matches Some(w) && forall|l: Seq<u8>| #[trigger]
            log_after(l, before.requests()) == v.bytes() ==> log_after(l, after.requests())
                == w.bytes(),
        None => after.wal() is None,
    }
}

/// What an import leaves: the pairs before the first that is none were put, one after the other.
pub open spec fn imported(
    before: &Database,
    after: &Database,
    b: Seq<u8>,
    r: Result<u64>,
) -> bool {
    let all = pairs_from(b, EXPORT_HEADER_SIZE as int);
    if header_ok(b) {
        &&& after.wf()
        &&& after.in_transaction() == before.in_transaction()
        &&& after.path() == before.path()
        &&& after.keeps_settings(before)
        &&& all.len() == 0 ==> after.unchanged(before)
        &&& all.len() > 0 ==> after.sound() && after.shape() == run(
            before.shape(),
            inserts_of(all),
        )
        &&& keeps_up(before, after)
        &&& match ending_from(b, EXPORT_HEADER_SIZE as int) {
            Item::Short => r matches Err(e) && is_short_read(e),
            Item::BadSize => r matches Err(e) && e.is_invalid_argument("invalid record size"@),
            _ => r matches Ok(n) && n == all.len(),
        }
    } else {
        &&& *after == *before
        &&& r matches Err(e) && header_error(b, e)
    }
}

/// What compacting leaves: a new file, into which the pairs were put one after the other.
pub open spec fn compacted(before: &Database, after: &Database, st: Stats) -> bool {
    &&& all_acceptable(inserts_of(before.entries()))
    &&& after.wf()
    &&& after.sound()
    &&& after.shape() == run(empty_shape(), inserts_of(before.entries()))
    &&& before.sound() ==> after.entries() == before.entries()
    &&& same_settings(MetaData::fresh(), meta_of(after.pages()))
    &&& after.pages() == file_pages(after.file_bytes())
    &&& after.in_transaction() == before.in_transaction()
    &&& after.path() == before.path()
    &&& after.requests() == before.requests() + seq![Demand::Replace(after.file_bytes())]
        + clearing(before.wal())
    &&& after.log_cleared(before)
    &&& st.are_of(meta_of(after.pages()))
}

/// The calls that begin and end a transaction.
pub enum Mark {
    Begin,
    Commit,
    Abort,
}

/// A transaction begins where none is active, and ends where one is. Whether the call succeeds or
/// not, one is active afterwards if it was to begin, and none if it was to end.
pub open spec fn marked(before: &Database, after: &Database, m: Mark, ok: bool) -> bool {
    &&& ok <==> before.in_transaction() != (m is Begin)
    &&& after.in_transaction() <==> m is Begin
}

/// The state of an import after `n` pairs.
pub open spec fn import_state(before: &Database, now: &Database, all: Seq<Entry>, n: int) -> bool {
    let ops = inserts_of(all);
    &&& 0 <= n <= all.len()
    &&& now.wf()
    &&& now.in_transaction() == before.in_transaction()
    &&& now.path() == before.path()
    &&& keeps_up(before, now)
    &&& now.keeps_settings(before)
    &&& n == 0 ==> now.unchanged(before)
    &&& n > 0 ==> {
        &&& before.sound()
        &&& now.sound()
        &&& now.shape() == run(before.shape(), ops.take(n))
        &&& match before.wal() {
            Some(v) => now.wal() matches Some(w) && w.offset() == import_offset(
                v,
                before.in_transaction(),
                all.take(n),
            ),
            None => now.wal() is None,
        }
    }
    &&& forall|i: int| 0 <= i < n ==> before.import_room(#[trigger] all.take(i), all[i])
    &&& forall|i: int|
        0 <= i < n ==> run_has_room(#[trigger] run(before.shape(), ops.take(i)), ops[i])
    &&& forall|i: int| 0 <= i < n ==> storable((#[trigger] all[i]).0, all[i].1)
}

pub proof fn lemma_logging(w: Option<Wal>, e: LogEntry)
    ensures
        w matches Some(w) ==> {
            let a = Change::Write(w.offset(), e.encoded());
            let c = Change::Write(w.offset() + e.step(), commit_record().encoded());
            &&& Seq::<Change>::empty().push(a) == seq![a]
            &&& Seq::<Change>::empty().push(a).push(c) == seq![a, c]
        },
{
    if let Some(w) = w {
        let a = Change::Write(w.offset(), e.encoded());
        let c = Change::Write(w.offset() + e.step(), commit_record().encoded());
        assert(Seq::<Change>::empty().push(a) =~= seq![a]);
        assert(Seq::<Change>::empty().push(a).push(c) =~= seq![a, c]);
    }
}

pub proof fn lemma_set_len_zero(b: Seq<u8>)
    ensures
        changed_all(b, seq![Change::SetLen(0)]) == Seq::<u8>::empty(),
{
    let cs = seq![Change::SetLen(0)];
    assert(cs.drop_last() =~= Seq::<Change>::empty());
    assert(changed_all(b, cs.drop_last()) == b);
    assert(cs.last() == Change::SetLen(0));
    assert(changed(b, Change::SetLen(0)) =~= Seq::<u8>::empty());
}

/// A file with valid metadata is not empty.
pub proof fn lemma_valid_not_empty(b: Seq<u8>)
    requires
        meta_of(file_pages(b)).valid(),
    ensures
        b.len() > 0,
{
    reveal(le64);
    reveal(le32);
}

/// The pages of a file that was just opened are in step with the metadata.
pub proof fn lemma_start_in_step(pager: &Pager, data: Seq<u8>)
    requires
        pager.wf(),
        pager.pages() == start_pages(data),
        data.len() == 0 ==> pager.next() == 2,
        data.len() > 0 ==> pager.next() == opened_next(data),
        forall|x: PageId| #[trigger] pager.seen().contains(x) ==> x <= 1 && (data.len() > 0 ==> x
            == META_PAGE_ID),
    ensures
        sound(pager.pages(), root_of(pager.pages())) ==> in_step(pager),
{
    lemma_fresh_sound();
    if sound(pager.pages(), root_of(pager.pages())) {
        lemma_sound(pager.pages(), root_of(pager.pages()));
    }
}

/// Pages that were read anew from the file are in step with the metadata.
pub proof fn lemma_reverted_in_step(pager: &Pager)
    requires
        pager.wf(),
        pager.pages() == file_pages(pager.file_bytes()),
        pager.next() == opened_next(pager.file_bytes()),
        forall|x: PageId| #[trigger] pager.seen().contains(x) ==> x == META_PAGE_ID,
    ensures
        sound(pager.pages(), root_of(pager.pages())) ==> in_step(pager),
{
    if sound(pager.pages(), root_of(pager.pages())) {
        lemma_sound(pager.pages(), root_of(pager.pages()));
    }
}

/// Reading the metadata of sound pages keeps the pager in step.
pub proof fn lemma_meta_in_step(p: &Pager, q: &Pager, root: PageId)
    requires
        sound(p.pages(), root) ==> in_step(p),
        q.wf(),
        q.pages() == p.pages(),
        q.next() == p.next(),
        q.seen() == p.seen().insert(META_PAGE_ID),
    ensures
        sound(q.pages(), root) ==> in_step(q),
{
    if sound(p.pages(), root) {
        lemma_sound(p.pages(), root);
    }
}

/// Reading the free pages of sound pages keeps the pager in step.
pub proof fn lemma_free_in_step(p: &Pager, q: &Pager, root: PageId)
    requires
        sound(p.pages(), root) ==> in_step(p),
        q.wf(),
        q.pages() == p.pages(),
        q.next() == p.next(),
        forall|x: PageId| #[trigger]
            q.seen().contains(x) ==> p.seen().contains(x) || x == META_PAGE_ID || free_list(
                p.pages(),
            ).contains(x),
    ensures
        sound(q.pages(), root) ==> in_step(q),
{
    if sound(p.pages(), root) {
        lemma_sound(p.pages(), root);
        let free = free_list(p.pages());
        assert forall|x: PageId| #[trigger] q.seen().contains(x) implies x < q.next() by {
            if free.contains(x) {
                let i = choose|i: int| 0 <= i < free.len() && free[i] == x;
                assert(free[i] == x);
            }
        }
    }
}

/// Pages that were written, between requests for the log of which the last empties it.
pub proof fn lemma_flush_keeps_up(
    before: &Database,
    after: &Database,
    first: Seq<Demand>,
    ws: Seq<Change>,
    last: Seq<Demand>,
)
    requires
        changed_all(before.file_bytes(), ws) == after.file_bytes(),
        after.requests() == before.requests() + first + on_data(ws.push(Change::Sync)) + last,
        last == clearing(before.wal()),
        after.log_cleared(before),
        before.wal() is None ==> first == Seq::<Demand>::empty(),
        before.wal() is Some ==> exists|cs: Seq<Change>| first == on_log(cs),
    ensures
        keeps_up(before, after),
{
    let d0 = before.requests();
    let mid = on_data(ws.push(Change::Sync));
    assert(ws.push(Change::Sync).drop_last() =~= ws);
    assert forall|b: Seq<u8>| #[trigger] data_after(b, d0) == before.file_bytes() implies data_after(
        b,
        after.requests(),
    ) == after.file_bytes() by {
        lemma_after_parts(b, d0 + first + mid, last);
        lemma_after_parts(b, d0 + first, mid);
        lemma_after_parts(b, d0, first);
        lemma_after_changes(before.file_bytes(), ws.push(Change::Sync));
        if before.wal() is Some {
            let cs = choose|cs: Seq<Change>| first == on_log(cs);
            lemma_after_changes(before.file_bytes(), cs);
            lemma_after_changes(after.file_bytes(), seq![Change::SetLen(0)]);
        }
    }
    if let Some(w) = after.wal() {
        assert forall|l: Seq<u8>| log_after(l, after.requests()) == w.bytes() by {
            lemma_after_parts(l, d0 + first + mid, last);
            lemma_after_changes(log_after(l, d0 + first + mid), seq![Change::SetLen(0)]);
            lemma_set_len_zero(log_after(l, d0 + first + mid));
        }
    }
}

/// A log that was emptied is in the requests.
pub proof fn lemma_clear_keeps_up(before: &Database, after: &Database)
    requires
        after.file_bytes() == before.file_bytes(),
        after.requests() == before.requests() + clearing(before.wal()),
        after.log_cleared(before),
    ensures
        keeps_up(before, after),
{
    let d0 = before.requests();
    let d1 = clearing(before.wal());
    if before.wal() is Some {
        let cs = seq![Change::SetLen(0)];
        assert forall|b: Seq<u8>| #[trigger]
            data_after(b, d0) == before.file_bytes() implies data_after(b, after.requests())
            == after.file_bytes() by {
            lemma_after_parts(b, d0, d1);
            lemma_after_changes(before.file_bytes(), cs);
        }
        assert forall|l: Seq<u8>| log_after(l, after.requests())
            == after.wal()->Some_0.bytes() by {
            lemma_after_parts(l, d0, d1);
            lemma_after_changes(log_after(l, d0), cs);
            lemma_set_len_zero(log_after(l, d0));
        }
    } else {
        assert(d0 + d1 =~= d0);
    }
}

/// A change that was made and logged is in the requests.
pub proof fn law_change_keeps_up(before: &Database, after: &Database, e: LogEntry)
    requires
        after.logged_change(before, e),
    ensures
        keeps_up(before, after),
{
    let d0 = before.requests();
    if before.in_transaction() {
        let first = logging(before.wal(), e, false);
        law_logging_keeps_up(before, after, e, false);
    } else {
        let first = logging(before.wal(), e, true);
        let last = clearing(before.wal());
        let ws = choose|ws: Seq<Change>| #[trigger]
            changed_all(before.file_bytes(), ws) == after.file_bytes() && after.requests()
                == before.requests() + first + on_data(ws.push(Change::Sync)) + last;
        lemma_flush_keeps_up(before, after, first, ws, last);
    }
}

/// A record that was added to the log is in the requests.
pub proof fn law_logging_keeps_up(before: &Database, after: &Database, e: LogEntry, commit: bool)
    requires
        after.file_bytes() == before.file_bytes(),
        after.only_logged(before, e, commit),
    ensures
        keeps_up(before, after),
{
    let d0 = before.requests();
    let d1 = logging(before.wal(), e, commit);
    match before.wal() {
        Some(v) => {
            let a = Change::Write(v.offset(), e.encoded());
            let c = Change::Write(v.offset() + e.step(), commit_record().encoded());
            let cs = if commit {
                seq![a, c]
            } else {
                seq![a]
            };
            assert(d1 == on_log(cs));
            assert(seq![a].drop_last() =~= Seq::<Change>::empty());
            assert(seq![a, c].drop_last() =~= seq![a]);
            reveal_with_fuel(changed_all, 3);
            lemma_after_changes(v.bytes(), cs);
            lemma_after_changes(before.file_bytes(), cs);
            assert forall|b: Seq<u8>| #[trigger]
                data_after(b, d0) == before.file_bytes() implies data_after(b, after.requests())
                == after.file_bytes() by {
                lemma_after_parts(b, d0, d1);
            }
            assert forall|l: Seq<u8>| #[trigger] log_after(l, d0) == v.bytes() implies log_after(
                l,
                after.requests(),
            ) == after.wal()->Some_0.bytes() by {
                lemma_after_parts(l, d0, d1);
            }
        },
        None => {
            assert(d0 + d1 =~= d0);
        },
    }
}

/// Pages that were written when a transaction was committed are in the requests.
pub proof fn law_commit_keeps_up(before: &Database, after: &Database)
    requires
        after.flushed(before, committing(before.wal()), clearing(before.wal())),
        after.log_cleared(before),
    ensures
        keeps_up(before, after),
{
    let first = committing(before.wal());
    let last = clearing(before.wal());
    let ws = choose|ws: Seq<Change>| #[trigger]
        changed_all(before.file_bytes(), ws) == after.file_bytes() && after.requests()
            == before.requests() + first + on_data(ws.push(Change::Sync)) + last;
    lemma_flush_keeps_up(before, after, first, ws, last);
}

/// A log that was emptied when a transaction was aborted is in the requests.
pub proof fn law_abort_keeps_up(before: &Database, after: &Database)
    requires
        after.file_bytes() == before.file_bytes(),
        after.requests() == before.requests() + aborting(before.wal()),
        after.log_cleared(before),
    ensures
        keeps_up(before, after),
{
    let d0 = before.requests();
    let d1 = aborting(before.wal());
    match before.wal() {
        Some(v) => {
            let a = Change::Write(v.offset(), abort_record().encoded());
            let cs = seq![a, Change::SetLen(0)];
            assert(cs.drop_last() =~= seq![a]);
            assert forall|b: Seq<u8>| #[trigger]
                data_after(b, d0) == before.file_bytes() implies data_after(b, after.requests())
                == after.file_bytes() by {
                lemma_after_parts(b, d0, d1);
                lemma_after_changes(before.file_bytes(), cs);
            }
            assert forall|l: Seq<u8>| #[trigger] log_after(l, d0) == v.bytes() implies log_after(
                l,
                after.requests(),
            ) == after.wal()->Some_0.bytes() by {
                lemma_after_parts(l, d0, d1);
                lemma_after_changes(v.bytes(), cs);
                assert(changed_all(v.bytes(), cs) =~= Seq::<u8>::empty());
            }
        },
        None => {
            assert(d0 + d1 =~= d0);
        },
    }
}

/// A file that was rebuilt is in the requests.
pub proof fn law_compact_keeps_up(before: &Database, after: &Database)
    requires
        after.requests() == before.requests() + seq![Demand::Replace(after.file_bytes())]
            + clearing(before.wal()),
        after.log_cleared(before),
    ensures
        keeps_up(before, after),
{
    let d0 = before.requests();
    let d1 = seq![Demand::Replace(after.file_bytes())];
    let d2 = clearing(before.wal());
    assert(d1.drop_last() =~= Seq::<Demand>::empty());
    assert forall|b: Seq<u8>| #[trigger] data_after(b, d0) == before.file_bytes() implies data_after(
        b,
        after.requests(),
    ) == after.file_bytes() by {
        lemma_after_parts(b, d0 + d1, d2);
        lemma_after_parts(b, d0, d1);
        assert(data_after(data_after(b, d0), d1) == after.file_bytes());
        if before.wal() is Some {
            lemma_after_changes(after.file_bytes(), seq![Change::SetLen(0)]);
        }
    }
    if let Some(w) = after.wal() {
        assert forall|l: Seq<u8>| log_after(l, after.requests()) == w.bytes() by {
            lemma_after_parts(l, d0 + d1, d2);
            lemma_after_changes(log_after(l, d0 + d1), seq![Change::SetLen(0)]);
            lemma_set_len_zero(log_after(l, d0 + d1));
        }
    }
}

/// All pairs were put.
pub proof fn lemma_import_end(
    before: &Database,
    now: &Database,
    b: Seq<u8>,
    all: Seq<Entry>,
    n: int,
)
    requires
        header_ok(b),
        all == pairs_from(b, EXPORT_HEADER_SIZE as int),
        import_state(before, now, all, n),
        all.skip(n) == Seq::<Entry>::empty(),
    ensures
        n == all.len(),
        before.can_import(b),
        all.len() > 0 ==> now.shape() == run(before.shape(), inserts_of(all)),
{
    assert(all.skip(n).len() == all.len() - n);
    assert(inserts_of(all).take(n) =~= inserts_of(all));
}

/// There is no room for the next pair.
pub proof fn lemma_import_stuck(before: &Database, now: &Database, all: Seq<Entry>, n: int)
    requires
        import_state(before, now, all, n),
        n < all.len(),
        storable(all[n].0, all[n].1),
        now.sound(),
        !now.can_put(all[n].0, all[n].1),
    ensures
        !run_fits(before.shape(), inserts_of(all)) || !before.import_room(all.take(n), all[n]),
{
    let ops = inserts_of(all);
    let e = all[n];
    assert(ops.take(0) =~= Seq::<Op>::empty());
    assert(all.take(0) =~= Seq::<Entry>::empty());
    if !now.shape().fits(e.0, e.1) {
        assert(all_acceptable(ops.take(n + 1))) by {
            assert forall|i: int| 0 <= i < n + 1 implies crate::replay::acceptable(
                #[trigger] ops.take(n + 1)[i],
            ) by {
                assert(storable(all[i].0, all[i].1));
            }
        }
        assert(!run_has_room(run(before.shape(), ops.take(n)), ops[n]));
    }
}

/// One more pair was put.
pub proof fn lemma_import_step(
    before: &Database,
    now: &Database,
    after: &Database,
    all: Seq<Entry>,
    n: int,
)
    requires
        import_state(before, now, all, n),
        n < all.len(),
        storable(all[n].0, all[n].1),
        now.sound(),
        now.can_put(all[n].0, all[n].1),
        after.wf(),
        after.sound(),
        after.shape() == now.shape().with(all[n].0, all[n].1),
        after.keeps_settings(now),
        after.logged_change(now, insert_record(all[n].0, all[n].1)),
    ensures
        import_state(before, after, all, n + 1),
{
    let ops = inserts_of(all);
    let e = all[n];
    assert(ops.take(0) =~= Seq::<Op>::empty());
    assert(all.take(0) =~= Seq::<Entry>::empty());
    assert(ops.take(n + 1).drop_last() =~= ops.take(n));
    assert(ops.take(n + 1).last() == ops[n]);
    assert(all.take(n + 1).drop_last() =~= all.take(n));
    assert(all.take(n + 1).last() == e);
    law_change_keeps_up(now, after, insert_record(e.0, e.1));
    assert(keeps_up(before, after));
}

} // verus!
