//! What holds over whole rounds: crash and replay, begin and end, compact, export and import.
use vstd::prelude::*;
use crate::build_laws::{law_compact_again, law_compact_pages, law_import_again};
use crate::constants::{PageId, INVALID_PAGE_ID, WAL_HEADER_SIZE};
use crate::database::{Database, Stats};
use crate::effects::{
    compacted, imported, lemma_valid_not_empty, log_ops, marked, openable, opened, root_of,
    start_pages, Mark,
};
use crate::error::Result;
use crate::export::export_bytes;
use crate::laws::{
    all_tellable, kept_of, law_changes, law_compact_preserves, law_export_import,
    law_replay_transactions, mapped, none_refused, overlaid, records_of, run_kept, tellable,
    transcript, History,
};
use crate::pager::{chain, file_pages, meta_of};
use crate::replay::Op;
use crate::requests::log_after;
use crate::shape::{empty_shape, lemma_shape_ok, shape_of};
use crate::store::{lemma_sound, sound};
use crate::wal_laws::log_bytes;

verus! {

/// Opening a database makes exactly the changes of the committed transactions of its log, one
/// after the other: none of an aborted one, none of one without an end, and the start of a header
/// at the end of the log does not matter. The keys and values are those that these changes make,
/// unless one of them is refused. The log is empty afterwards, and opened once more the database is
/// the same.
pub proof fn law_open_replays(
    data: Seq<u8>,
    bs: History,
    ys: Seq<Op>,
    tail: Seq<u8>,
    path: Seq<char>,
    again: &Database,
    twice: &Database,
)
    requires
        sound(start_pages(data), root_of(start_pages(data))),
        all_tellable(bs),
        forall|i: int| 0 <= i < ys.len() ==> tellable(#[trigger] ys[i]),
        tail.len() < WAL_HEADER_SIZE,
        ({
            let log = log_bytes(transcript(bs) + records_of(ys)) + tail;
            &&& openable(data, log, true)
            &&& opened(again, path, true, data, log)
            &&& opened(
                twice,
                path,
                true,
                again.file_bytes(),
                log_after(log, again.requests()),
            )
        }),
    ensures
        ({
            let s = shape_of(start_pages(data), root_of(start_pages(data)));
            let log = log_bytes(transcript(bs) + records_of(ys)) + tail;
            &&& again.sound()
            &&& again.shape() == run_kept(s, bs)
            &&& none_refused(s, kept_of(bs)) ==> again.shape().map() == mapped(
                s.map(),
                kept_of(bs),
            )
            &&& again.nothing_logged()
            &&& log_after(log, again.requests()) == Seq::<u8>::empty()
            &&& twice.shape() == again.shape()
            &&& twice.entries() == again.entries()
        }),
{
    let p = start_pages(data);
    let s = shape_of(p, root_of(p));
    let log = log_bytes(transcript(bs) + records_of(ys)) + tail;
    let ops = kept_of(bs);
    law_replay_transactions(bs, ys, tail, s);
    lemma_shape_ok(p, root_of(p));
    assert(log_ops(log, true) == ops);
    if ops.len() > 0 {
        if none_refused(s, ops) {
            law_changes(s, ops);
        }
    } else {
        assert(ops =~= Seq::<Op>::empty());
    }
    lemma_sound(again.pages(), again.root());
    assert(again.pages() == file_pages(again.file_bytes()));
    lemma_valid_not_empty(again.file_bytes());
}

/// Whether a transaction is active after the calls that begin and end transactions, in a database
/// in which none was: if the last of them was to begin one.
pub open spec fn active_after(calls: Seq<Mark>) -> bool {
    calls.len() > 0 && calls.last() is Begin
}

/// Transactions begin and end in turn: a call to begin one fails if the last call before it was to
/// begin one, and a call to end one succeeds if the last call before it was to begin one.
pub proof fn law_transactions_alternate(
    states: Seq<Database>,
    calls: Seq<Mark>,
    oks: Seq<bool>,
    n: int,
)
    requires
        states.len() == calls.len() + 1,
        oks.len() == calls.len(),
        !states[0].in_transaction(),
        forall|i: int|
            0 <= i < calls.len() ==> marked(&states[i], &states[i + 1], #[trigger] calls[i], oks[i]),
        0 <= n <= calls.len(),
    ensures
        states[n].in_transaction() == active_after(calls.take(n)),
        n < calls.len() ==> oks[n] == (active_after(calls.take(n)) != (calls[n] is Begin)),
{
    if n > 0 {
        assert(marked(&states[n - 1], &states[n], calls[n - 1], oks[n - 1]));
        assert(calls.take(n).last() == calls[n - 1]);
    }
    if n < calls.len() {
        assert(marked(&states[n], &states[n + 1], calls[n], oks[n]));
    }
}

/// A compacted database has the pairs that it had, also when it is opened again. It has one page
/// for each node besides that of the metadata, none of them free, and an empty log. Compacting it
/// once more changes nothing.
pub proof fn law_compact(
    before: &Database,
    after: &Database,
    st: Stats,
    again: &Database,
    st2: Stats,
    reopened: &Database,
    path: Seq<char>,
    enable_wal: bool,
)
    requires
        before.sound(),
        before.can_compact(),
        compacted(before, after, st),
        compacted(after, again, st2),
        opened(reopened, path, enable_wal, after.file_bytes(), Seq::empty()),
    ensures
        after.entries() == before.entries(),
        reopened.shape() == after.shape(),
        reopened.entries() == before.entries(),
        after.shape().free == Seq::<PageId>::empty(),
        meta_of(after.pages()).freelist_page == INVALID_PAGE_ID,
        st.page_count == after.shape().tree.node_count() + 1,
        after.nothing_logged(),
        after.can_compact(),
        again.shape() == after.shape(),
        again.entries() == before.entries(),
        st2 == st,
{
    law_compact_preserves(before, after);
    law_compact_pages(before, after);
    law_compact_again(before, after, again);
    lemma_sound(after.pages(), after.root());
    lemma_sound(again.pages(), again.root());
    assert(after.shape().free =~= Seq::<PageId>::empty());
    assert(chain(after.pages(), meta_of(after.pages()).freelist_page, after.shape().free));
    lemma_valid_not_empty(after.file_bytes());
    assert(log_ops(Seq::empty(), enable_wal) =~= Seq::<Op>::empty());
}

/// What one database exports, another imports: the import succeeds and tells how many pairs there
/// were, and every pair of the first is in the second afterwards. Into an empty database nothing
/// else is. Importing it a second time succeeds as well and changes nothing.
pub proof fn law_export_import_round(
    from: &Database,
    into: &Database,
    after: &Database,
    again: &Database,
    r1: Result<u64>,
    r2: Result<u64>,
)
    requires
        from.sound(),
        into.sound(),
        into.can_import(export_bytes(from.entries())),
        imported(into, after, export_bytes(from.entries()), r1),
        after.can_import(export_bytes(from.entries())),
        imported(after, again, export_bytes(from.entries()), r2),
    ensures
        r1 matches Ok(n) && n == from.entries().len(),
        r2 == r1,
        after.shape().map() == overlaid(into.shape().map(), from.entries()),
        into.shape() == empty_shape() ==> after.entries() == from.entries(),
        again.shape() == after.shape(),
        again.entries() == after.entries(),
{
    law_export_import(from, into, after, r1);
    law_import_again(from, into, after, again, r1, r2);
}

} // verus!
