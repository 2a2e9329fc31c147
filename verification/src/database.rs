//! The database: the tree in its pages, the log before it, and transactions over both.
use vstd::pervasive::unreached;
use vstd::prelude::*;
use vstd::slice::slice_subrange;
use crate::audit::{audit_free, is_sound, unused};
use crate::btree::{lemma_read_in_step, BTree};
use crate::btree_walk::{callable_on, called_on, countable};
use crate::bytes::copy_all;
use crate::constants::{
    MetaData, PageId, MAX_KEY_SIZE, MAX_VALUE_SIZE, META_PAGE_ID, PAGE_SIZE, ROOT_PAGE_ID,
    WAL_HEADER_SIZE,
};
use crate::effects::{
    aborting, appended, clearing, committing, compacted, ending_room, ends_synced, import_offset,
    import_state, imported, keeps_up, lemma_clear_keeps_up, lemma_empty_log, lemma_flush_keeps_up,
    lemma_free_in_step, lemma_import_end, lemma_import_step, lemma_import_stuck, lemma_in_order,
    lemma_logging, lemma_meta_in_step, lemma_no_changes, lemma_one_change, lemma_reverted_in_step,
    lemma_start_in_step, lemma_valid_not_empty, log_ops, log_room, logging, logs_changes, marked,
    numbered, openable, opened, record_count, replayable, root_of, sized, start_pages, valid_key,
    Mark,
};
use crate::entries::{has_key, lookup, pairs, with_entry, without_key, Entry};
use crate::error::{invalid_argument, KvdbError, Result};
use crate::export::{
    check_export_header, ending_from, export_bytes, export_header, header_ok, next_pair, pairs_from,
    push_export_header, push_pair, run_bytes, EXPORT_HEADER_SIZE,
};
use crate::laws::{
    law_compact_preserves, law_delete_then_get, law_put_then_get, lemma_all_acceptable,
    lemma_healthy,
};
use crate::meaning::{law_delete_pairs, law_found, law_put_pairs};
use crate::pager::{
    chain, file_pages, free_list, fresh_pages, has_free_list, meta_of, same_settings, Page, Pager,
    Pages,
};
use crate::replay::{
    all_acceptable, can_run, committed, inserts_of, lemma_some_commit, rebuild, run, run_fits,
    try_replay, Op, Rebuilt, Replay,
};
use crate::requests::{
    data_after, demands, lemma_after_changes, log_after, on_data, on_log, push_data, push_log,
    Demand, Request,
};
use crate::shape::{lemma_fresh_sound, lemma_shape_ok, shape_of, storable, Shape};
use crate::space::{in_step, next_of};
use crate::storage::{changed_all, lemma_changed_parts, Change};
use crate::store::{has_tree, lemma_distinct_bound, lemma_sound, sound, tree_of};
use crate::survey::{is_walkable, lemma_walkable, walkable};
use crate::tree::Tree;
use crate::wal::{abort_record, commit_record, delete_record, insert_record, logged, LogEntry, Wal};

verus! {

/// Configuration options for database initialization.
#[derive(Debug, Clone)]
pub struct Options {
    pub enable_wal: bool,
}

impl Default for Options {
    fn default() -> (o: Self)
        ensures
            o.enable_wal,
    {
        Options { enable_wal: true }
    }
}

/// Transaction state.
#[derive(Debug, PartialEq, Eq, Structural)]
enum TransactionState {
    Idle,
    Active,
}

/// Database statistics.
#[derive(Debug, Clone)]
pub struct Stats {
    pub page_count: u64,
    pub page_size: u32,
    pub db_size: u64,
}

/// Detailed inspection results.
#[derive(Debug, Clone)]
pub struct InspectStats {
    pub page_count: u64,
    pub page_size: u32,
    pub db_size: u64,
    pub root_page_id: PageId,
    pub freelist_page: PageId,
    pub freelist_page_count: u64,
    pub last_page_id: PageId,
    pub wal_offset: u64,
    pub tree_height: u32,
    pub node_count: u64,
    pub leaf_count: u64,
    pub internal_count: u64,
    pub entry_count: u64,
}

/// Verification results.
#[derive(Debug, Clone)]
pub struct VerifyStats {
    pub checked_tree_pages: u64,
    pub checked_entries: u64,
    pub checked_wal_records: u64,
}

impl Stats {
    /// The statistics are those of the metadata.
    pub open spec fn are_of(self, m: MetaData) -> bool {
        &&& self.page_count == m.last_page_id + 1
        &&& self.page_size == m.page_size
        &&& self.db_size == self.page_count * self.page_size
    }
}

impl InspectStats {
    /// The results are those of the metadata, the free pages and the tree.
    pub open spec fn are_of(self, m: MetaData, free: Seq<PageId>, t: Tree) -> bool {
        &&& self.page_count == m.last_page_id + 1
        &&& self.page_size == m.page_size
        &&& self.db_size == self.page_count * self.page_size
        &&& self.root_page_id == m.root_page
        &&& self.freelist_page == m.freelist_page
        &&& self.freelist_page_count == free.len()
        &&& self.last_page_id == m.last_page_id
        &&& self.wal_offset == m.wal_offset
        &&& self.tree_height == t.depth()
        &&& self.node_count == t.node_count()
        &&& self.leaf_count == t.leaf_count()
        &&& self.internal_count == t.node_count() - t.leaf_count()
        &&& self.entry_count == t.entries().len()
    }
}

/// The main database handle.
pub struct Database {
    pager: Pager,
    btree: BTree,
    wal: Option<Wal>,
    tx_state: TransactionState,
    db_path: String,
    requests: Vec<Request>,
}

impl Database {
    /// What the pages hold.
    pub closed spec fn pages(&self) -> Pages {
        self.pager.pages()
    }

    /// The page at which the tree begins.
    pub closed spec fn root(&self) -> PageId {
        self.btree.root()
    }

    /// What the data file holds once the requests are carried out.
    pub closed spec fn file_bytes(&self) -> Seq<u8> {
        self.pager.file_bytes()
    }

    /// The pairs that were handed to functions, one for each call, in the order of the calls.
    pub closed spec fn handed(&self) -> Seq<Entry> {
        self.pager.handed.pairs()
    }

    /// The log, where there is one.
    pub closed spec fn wal(&self) -> Option<Wal> {
        self.wal
    }

    /// A transaction has begun and not ended.
    pub closed spec fn in_transaction(&self) -> bool {
        self.tx_state == TransactionState::Active
    }

    /// The path of the data file.
    pub closed spec fn path(&self) -> Seq<char> {
        self.db_path@
    }

    /// What is still to be done to the files.
    pub closed spec fn requests(&self) -> Seq<Demand> {
        demands(self.requests@)
    }

    /// The parts of the database fit together.
    pub closed spec fn inner(&self) -> bool {
        &&& self.pager.wf()
        &&& self.pager.pending() == Seq::<Change>::empty()
        &&& self.wal matches Some(w) ==> w.pending() == Seq::<Change>::empty()
        &&& sound(self.pager.pages(), self.btree.root()) ==> in_step(&self.pager)
    }

    /// The metadata name the root, and outside a transaction the data file holds the pages.
    pub open spec fn whole(&self) -> bool {
        &&& self.inner()
        &&& self.root() == root_of(self.pages())
        &&& numbered(self.pages())
        &&& numbered(file_pages(self.file_bytes()))
        &&& !self.in_transaction() ==> self.pages() == file_pages(self.file_bytes())
    }

    /// What the log file holds, where there is one, once the requests are carried out.
    pub open spec fn log_bytes(&self) -> Seq<u8> {
        match self.wal() {
            Some(w) => w.bytes(),
            None => Seq::empty(),
        }
    }

    /// The log, where there is one, is empty.
    pub open spec fn nothing_logged(&self) -> bool {
        self.wal() matches Some(w) ==> w.bytes() == Seq::<u8>::empty() && w.offset() == 0
    }

    /// The log, where there is one, tells of changes and ends none of them.
    pub open spec fn changes_logged(&self) -> bool {
        self.wal() matches Some(w) ==> logs_changes(&w)
    }

    /// The database is whole. Outside a transaction nothing is logged, and within one nothing but
    /// changes.
    pub open spec fn wf(&self) -> bool {
        &&& self.whole()
        &&& if self.in_transaction() {
            self.changes_logged()
        } else {
            self.nothing_logged()
        }
    }

    /// The metadata are as they were, but for the root and for the pages that are in use.
    pub open spec fn keeps_settings(&self, before: &Database) -> bool {
        same_settings(meta_of(before.pages()), meta_of(self.pages()))
    }

    /// The pages are those of a database.
    pub open spec fn sound(&self) -> bool {
        sound(self.pages(), self.root())
    }

    /// The tree, the free pages and the number of the next one.
    pub open spec fn shape(&self) -> Shape {
        shape_of(self.pages(), self.root())
    }

    /// The pairs, in the order of their keys.
    pub open spec fn entries(&self) -> Seq<Entry> {
        tree_of(self.pages(), self.root()).entries()
    }

    /// The tree can be read.
    pub open spec fn readable(&self) -> bool {
        has_tree(self.pages(), self.root())
    }

    /// Keys can be looked up in the tree.
    pub open spec fn searchable(&self) -> bool {
        self.sound() || self.readable() && tree_of(self.pages(), self.root()).ordered(None, None)
    }

    /// The tree can be read, and is not too deep or too large for that.
    pub open spec fn walkable(&self) -> bool {
        self.sound() || walkable(self.pages(), self.root())
    }

    /// The free pages can be listed: no page is listed twice.
    pub open spec fn lists_free(&self) -> bool {
        exists|l: Seq<PageId>| #[trigger]
            chain(self.pages(), meta_of(self.pages()).freelist_page, l) && unused(
                l,
                next_of(self.pages()),
                Seq::empty(),
            )
    }

    /// The database is as it was.
    pub open spec fn unchanged(&self, before: &Database) -> bool {
        &&& self.wf()
        &&& self.pages() == before.pages()
        &&& self.root() == before.root()
        &&& self.file_bytes() == before.file_bytes()
        &&& self.wal() == before.wal()
        &&& self.in_transaction() == before.in_transaction()
        &&& self.path() == before.path()
        &&& self.requests() == before.requests()
    }

    /// The pages were written to the data file and forced to disk, between other requests.
    pub open spec fn flushed(
        &self,
        before: &Database,
        first: Seq<Demand>,
        last: Seq<Demand>,
    ) -> bool {
        &&& file_pages(self.file_bytes()) == self.pages()
        &&& exists|ws: Seq<Change>| #[trigger]
            changed_all(before.file_bytes(), ws) == self.file_bytes() && self.requests()
                == before.requests() + first + on_data(ws.push(Change::Sync)) + last
    }

    /// The log was emptied, where there is one.
    pub open spec fn log_cleared(&self, before: &Database) -> bool {
        match self.wal() {
            Some(w) => before.wal() matches Some(v) && w.bytes() == Seq::<u8>::empty()
                && w.offset() == 0 && w.path() == v.path(),
            None => before.wal() is None,
        }
    }

    /// There is room for the pair in memory and in the log.
    pub open spec fn can_put(&self, k: Seq<u8>, v: Seq<u8>) -> bool {
        &&& self.sound()
        &&& self.shape().fits(k, v)
        &&& log_room(self.wal(), insert_record(k, v), !self.in_transaction())
    }

    /// The pairs can be read, and there is room for them in new pages.
    pub open spec fn can_compact(&self) -> bool {
        (self.sound() || self.readable()) && can_run(
            fresh_pages(),
            ROOT_PAGE_ID,
            inserts_of(self.entries()),
        )
    }

    /// There is room for the pairs of the export in memory and in the log.
    pub open spec fn can_import(&self, b: Seq<u8>) -> bool {
        let all = pairs_from(b, EXPORT_HEADER_SIZE as int);
        header_ok(b) && all.len() > 0 ==> {
            &&& self.sound()
            &&& run_fits(self.shape(), inserts_of(all))
            &&& forall|i: int| 0 <= i < all.len() ==> self.import_room(#[trigger] all.take(i), all[i])
        }
    }

    /// The log has room for the pair behind those before it.
    pub open spec fn import_room(&self, done: Seq<Entry>, e: Entry) -> bool {
        let commit = if self.in_transaction() {
            0
        } else {
            commit_record().step()
        };
        self.wal() matches Some(w) ==> import_offset(w, self.in_transaction(), done)
            + insert_record(e.0, e.1).step() + commit <= usize::MAX
    }

    /// The key can be taken out: the pages are those of a database, and the log has room.
    pub open spec fn can_delete(&self, k: Seq<u8>) -> bool {
        self.sound() && log_room(self.wal(), delete_record(k), !self.in_transaction())
    }

    /// The database is as it was, but that a transaction may have begun.
    pub open spec fn same_but_transaction(&self, before: &Database) -> bool {
        &&& self.pages() == before.pages()
        &&& self.root() == before.root()
        &&& self.file_bytes() == before.file_bytes()
        &&& self.wal() == before.wal()
        &&& self.path() == before.path()
        &&& self.requests() == before.requests()
    }

    /// A change was made. Outside a transaction it was logged with a commit, the pages were
    /// written, and the log was emptied. Within one it was logged alone.
    pub open spec fn logged_change(&self, before: &Database, e: LogEntry) -> bool {
        &&& self.in_transaction() == before.in_transaction()
        &&& self.path() == before.path()
        &&& if before.in_transaction() {
            &&& self.file_bytes() == before.file_bytes()
            &&& self.only_logged(before, e, false)
        } else {
            &&& self.flushed(before, logging(before.wal(), e, true), clearing(before.wal()))
            &&& self.log_cleared(before)
        }
    }

    /// The record was added to the log, where there is one, with or without a commit behind it.
    pub open spec fn only_logged(&self, before: &Database, e: LogEntry, commit: bool) -> bool {
        &&& self.requests() == before.requests() + logging(before.wal(), e, commit)
        &&& match before.wal() {
            Some(v) => self.wal() matches Some(w) && appended(&w, &v, e, commit),
            None => self.wal() is None,
        }
    }

    /// Moves the changes to the data file to the requests.
    fn collect_data(&mut self)
        requires
            old(self).pager.wf(),
        ensures
            final(self).pager.wf(),
            final(self).pager.pages() == old(self).pager.pages(),
            final(self).pager.file_bytes() == old(self).pager.file_bytes(),
            final(self).pager.pending() == Seq::<Change>::empty(),
            final(self).pager.dirty_writes() == old(self).pager.dirty_writes(),
            final(self).pager.next() == old(self).pager.next(),
            final(self).pager.seen() == old(self).pager.seen(),
            final(self).btree == old(self).btree,
            final(self).wal == old(self).wal,
            final(self).tx_state == old(self).tx_state,
            final(self).db_path == old(self).db_path,
            demands(final(self).requests@) == demands(old(self).requests@) + on_data(
                old(self).pager.pending(),
            ),
    {
        let ops = self.pager.take_pending();
        push_data(&mut self.requests, ops);
    }

    /// Moves the changes to the log file to the requests.
    fn collect_log(&mut self)
        ensures
            final(self).pager == old(self).pager,
            final(self).btree == old(self).btree,
            final(self).tx_state == old(self).tx_state,
            final(self).db_path == old(self).db_path,
            match old(self).wal {
                Some(v) => {
                    &&& final(self).wal matches Some(w) && w.bytes() == v.bytes() && w.offset()
                        == v.offset() && w.path() == v.path() && w.pending() == Seq::<
                        Change,
                    >::empty()
                    &&& demands(final(self).requests@) == demands(old(self).requests@) + on_log(
                        v.pending(),
                    )
                },
                None => final(self).wal is None && final(self).requests == old(self).requests,
            },
    {
        if let Some(wal) = &mut self.wal {
            let ops = wal.take_pending();
            push_log(&mut self.requests, ops);
        }
    }

    /// Empties the log.
    fn clear_log(&mut self)
        requires
            old(self).wal matches Some(w) ==> w.pending() == Seq::<Change>::empty(),
        ensures
            final(self).pager == old(self).pager,
            final(self).btree == old(self).btree,
            final(self).tx_state == old(self).tx_state,
            final(self).db_path == old(self).db_path,
            final(self).log_cleared(old(self)),
            final(self).wal matches Some(w) ==> w.pending() == Seq::<Change>::empty(),
            demands(final(self).requests@) == demands(old(self).requests@) + clearing(
                old(self).wal,
            ),
    {
        if let Some(wal) = &mut self.wal {
            let _ = wal.clear();
        }
        self.collect_log();
        proof {
            if self.wal is Some {
                assert(Seq::<Change>::empty().push(Change::SetLen(0)) =~= seq![Change::SetLen(0)]);
            } else {
                assert(demands(self.requests@) + Seq::<Demand>::empty() =~= demands(self.requests@));
            }
        }
    }

    /// Writes the changed pages to the data file, and asks for them to be forced to disk.
    fn flush_pages(&mut self)
        requires
            old(self).pager.wf(),
            old(self).pager.pending() == Seq::<Change>::empty(),
        ensures
            final(self).pager.wf(),
            final(self).pager.pages() == old(self).pager.pages(),
            file_pages(final(self).pager.file_bytes()) == old(self).pager.pages(),
            final(self).pager.file_bytes() == changed_all(
                old(self).pager.file_bytes(),
                old(self).pager.dirty_writes(),
            ),
            final(self).pager.pending() == Seq::<Change>::empty(),
            final(self).pager.dirty_writes() == Seq::<Change>::empty(),
            final(self).pager.next() == old(self).pager.next(),
            final(self).pager.seen() == old(self).pager.seen(),
            final(self).btree == old(self).btree,
            final(self).wal == old(self).wal,
            final(self).tx_state == old(self).tx_state,
            final(self).db_path == old(self).db_path,
            demands(final(self).requests@) == demands(old(self).requests@) + on_data(
                old(self).pager.dirty_writes().push(Change::Sync),
            ),
    {
        let ghost ws = self.pager.dirty_writes();
        let _ = self.pager.flush();
        assert((Seq::<Change>::empty() + ws).push(Change::Sync) =~= ws.push(Change::Sync));
        self.collect_data();
    }

    /// Open or create a database, given what its data file and its log file hold. An empty data
    /// file becomes an empty database. What the log commits is done, and the log is emptied.
    pub fn open(path: &str, options: Options, data: Vec<u8>, log: Vec<u8>) -> (r: Result<Self>)
        requires
            openable(data@, log@, options.enable_wal),
        ensures
            match r {
                Ok(db) => opened(&db, path@, options.enable_wal, data@, log@),
                Err(e) => {
                    &&& !all_acceptable(log_ops(log@, options.enable_wal))
                    &&& e.is_invalid_argument("key or value size"@)
                },
            },
    {
        let ghost p0 = start_pages(data@);
        let ghost ops = log_ops(log@, options.enable_wal);
        proof {
            lemma_fresh_sound();
        }
        let _ = data.len();
        let mut pager = Pager::new(data)?;
        assert(pager.pages() =~= p0);
        let meta = pager.read_metadata()?;
        let btree = BTree::new(meta.root_page);
        let wal = if options.enable_wal {
            Some(Wal::new(path, log)?)
        } else {
            None
        };
        let mut db = Database {
            pager,
            btree,
            wal,
            tx_state: TransactionState::Idle,
            db_path: path.to_owned(),
            requests: Vec::new(),
        };
        let ghost made = db.pager.pending();
        db.collect_data();
        proof {
            assert(demands(db.requests@) =~= on_data(made));
            lemma_after_changes(data@, made);
            lemma_after_changes(log@, made);
            lemma_start_in_step(&db.pager, data@);
            if ops.len() == 0 {
                assert(all_acceptable(ops));
            }
        }
        // Replay WAL if present
        let ghost db1 = db;
        db.replay_wal()?;
        proof {
            assert(data_after(data@, db1.requests()) == db1.file_bytes());
            assert(log_after(log@, db1.requests()) == log@);
            let cut = !db1.nothing_logged();
            let w = db1.wal();
            let cs = choose|cs: Seq<Change>| #[trigger]
                changed_all(db1.file_bytes(), cs) == db.file_bytes() && ends_synced(cs)
                    && db.requests() == db1.requests() + (on_data(cs) + (if cut {
                    clearing(w)
                } else {
                    Seq::empty()
                }));
            let all = made + cs;
            lemma_changed_parts(data@, made, cs);
            lemma_in_order(data@, log@, all, w, cut);
            assert(db.requests() =~= on_data(all) + (if cut {
                clearing(w)
            } else {
                Seq::empty()
            }));
        }
        Ok(db)
    }

    /// Does what the log commits, and empties it. A log that is spoiled commits nothing.
    fn replay_wal(&mut self) -> (r: Result<()>)
        requires
            old(self).whole(),
            !old(self).in_transaction(),
            old(self).wal() matches Some(w) ==> w.offset() == w.bytes().len(),
            can_run(old(self).pages(), old(self).root(), replayable(old(self).wal())),
        ensures
            ({
                let ops = replayable(old(self).wal());
                match r {
                    Ok(_) => {
                        &&& all_acceptable(ops)
                        &&& final(self).wf()
                        &&& !final(self).in_transaction()
                        &&& final(self).path() == old(self).path()
                        &&& final(self).keeps_settings(old(self))
                        &&& ops.len() == 0 ==> final(self).pages() == old(self).pages()
                            && final(self).root() == old(self).root()
                        &&& ops.len() > 0 ==> final(self).sound() && final(self).shape() == run(
                            old(self).shape(),
                            ops,
                        )
                        &&& final(self).log_cleared(old(self))
                        &&& keeps_up(old(self), final(self))
                        &&& old(self).nothing_logged() ==> final(self).requests()
                            == old(self).requests()
                        &&& exists|cs: Seq<Change>| #[trigger]
                            changed_all(old(self).file_bytes(), cs) == final(self).file_bytes()
                                && ends_synced(cs) && final(self).requests()
                                == old(self).requests() + (on_data(cs) + (if old(
                                self,
                            ).nothing_logged() {
                                Seq::empty()
                            } else {
                                clearing(old(self).wal())
                            }))
                    },
                    Err(e) => !all_acceptable(ops) && e.is_invalid_argument("key or value size"@),
                }
            }),
    {
        let empty = match &self.wal {
            Some(wal) => wal.end() == 0,
            None => true,
        };
        if empty {
            proof {
                if let Some(w) = &self.wal {
                    lemma_empty_log(w.bytes());
                }
                let cs = Seq::<Change>::empty();
                assert(changed_all(self.file_bytes(), cs) == self.file_bytes());
                assert(self.requests() + (on_data(cs) + Seq::<Demand>::empty())
                    =~= self.requests());
            }
            return Ok(());
        }
        let records = match &mut self.wal {
            Some(wal) => match wal.read_all() {
                Ok(records) => records,
                Err(_) => Vec::new(),
            },
            None => Vec::new(),
        };
        assert(committed(logged(records@)) == replayable(old(self).wal()));
        let any_commit = match try_replay(&mut self.btree, &mut self.pager, &records) {
            Replay::Done { any_commit } => any_commit,
            Replay::Rejected(e) => {
                return Err(e);
            },
            Replay::NoRoom => {
                return unreached();
            },
        };
        let ghost ws = self.pager.dirty_writes();
        // Flush changes and clear WAL if we applied anything
        if any_commit {
            self.flush_pages();
        }
        self.clear_log();
        proof {
            lemma_some_commit(logged(records@));
            if self.sound() {
                lemma_sound(self.pages(), self.root());
            }
            if any_commit {
                let none = on_log(Seq::empty());
                assert(none =~= Seq::<Demand>::empty());
                assert(old(self).requests() + none =~= old(self).requests());
                lemma_flush_keeps_up(old(self), self, none, ws, clearing(old(self).wal()));
                let cs = ws.push(Change::Sync);
                assert(cs.drop_last() =~= ws);
                assert(changed_all(old(self).file_bytes(), cs) == self.file_bytes());
                assert(self.requests() =~= old(self).requests() + (on_data(cs) + clearing(
                    old(self).wal(),
                )));
            } else {
                lemma_clear_keeps_up(old(self), self);
                let cs = Seq::<Change>::empty();
                assert(changed_all(old(self).file_bytes(), cs) == self.file_bytes());
                assert(self.requests() =~= old(self).requests() + (on_data(cs) + clearing(
                    old(self).wal(),
                )));
            }
        }
        Ok(())
    }

    /// Open or create a database, if what its log commits can be done. `None` says that it cannot.
    pub fn open_checked(path: &str, options: Options, data: Vec<u8>, log: Vec<u8>) -> (r: Option<
        Result<Self>,
    >)
        ensures
            match r {
                Some(Ok(db)) => openable(data@, log@, options.enable_wal) && opened(
                    &db,
                    path@,
                    options.enable_wal,
                    data@,
                    log@,
                ),
                Some(Err(e)) => {
                    &&& openable(data@, log@, options.enable_wal)
                    &&& !all_acceptable(log_ops(log@, options.enable_wal))
                    &&& e.is_invalid_argument("key or value size"@)
                },
                None => !openable(data@, log@, options.enable_wal),
            },
    {
        proof {
            lemma_fresh_sound();
        }
        if data.len() > 0 && !is_numbered(&data) {
            return None;
        }
        if options.enable_wal && !can_replay(path, &data, &log) {
            return None;
        }
        Some(Self::open(path, options, data, log))
    }

    /// Get a value by key.
    pub fn get(&mut self, key: &[u8]) -> (r: Result<Option<Vec<u8>>>)
        requires
            old(self).wf(),
            valid_key(key@) ==> old(self).searchable(),
        ensures
            final(self).unchanged(old(self)),
            r is Ok <==> 1 <= key@.len() <= MAX_KEY_SIZE,
            match r {
                Ok(Some(v)) => valid_key(key@) && lookup(old(self).entries(), key@) == Some(v@),
                Ok(None) => valid_key(key@) && lookup(old(self).entries(), key@) is None,
                Err(e) => !valid_key(key@) && e.is_invalid_argument("key size"@),
            },
            old(self).sound() ==> match r {
                Ok(Some(v)) => old(self).entries().contains((key@, v@)),
                Ok(None) => forall|i: int|
                    0 <= i < old(self).entries().len() ==> (#[trigger] old(self).entries()[i]).0
                        != key@,
                Err(_) => true,
            },
    {
        if key.len() == 0 || key.len() > MAX_KEY_SIZE {
            return Err(invalid_argument("key size"));
        }
        let ghost p0 = self.pager;
        proof {
            lemma_healthy(self);
        }
        let r = self.btree.search(&mut self.pager, key);
        proof {
            if self.sound() {
                lemma_shape_ok(self.pages(), self.root());
                law_found(self.shape(), key@);
            }
            lemma_read_in_step(&p0, &self.pager, self.root());
        }
        r
    }

    /// Put a key-value pair. Auto-commits if no explicit transaction is active.
    pub fn put(&mut self, key: &[u8], value: &[u8]) -> (r: Result<()>)
        requires
            old(self).wf(),
            storable(key@, value@) ==> old(self).can_put(key@, value@),
        ensures
            r is Ok <==> 1 <= key@.len() <= MAX_KEY_SIZE && value@.len() <= MAX_VALUE_SIZE,
            match r {
                Ok(_) => {
                    &&& storable(key@, value@)
                    &&& final(self).wf()
                    &&& final(self).sound()
                    &&& final(self).shape() == old(self).shape().with(key@, value@)
                    &&& final(self).shape().is_near(old(self).shape())
                    &&& final(self).shape().has_root_from(old(self).shape())
                    &&& final(self).keeps_settings(old(self))
                    &&& final(self).entries() == with_entry(old(self).entries(), key@, value@)
                    &&& forall|q: Seq<u8>| #[trigger]
                        lookup(final(self).entries(), q) == (if q == key@ {
                            Some(value@)
                        } else {
                            lookup(old(self).entries(), q)
                        })
                    &&& forall|e: Entry| #[trigger]
                        final(self).entries().contains(e) <==> e == (key@, value@) || old(
                            self,
                        ).entries().contains(e) && e.0 != key@
                    &&& final(self).logged_change(old(self), insert_record(key@, value@))
                },
                Err(e) => {
                    &&& !storable(key@, value@)
                    &&& e.is_invalid_argument("key or value size"@)
                    &&& *final(self) == *old(self)
                },
            },
    {
        if key.len() == 0 || key.len() > MAX_KEY_SIZE || value.len() > MAX_VALUE_SIZE {
            return Err(invalid_argument("key or value size"));
        }
        let auto_commit = self.tx_state == TransactionState::Idle;
        let ghost e = insert_record(key@, value@);
        if let Some(wal) = &mut self.wal {
            wal.log_insert(key, value)?;
            if auto_commit {
                wal.log_commit()?;
            }
        }
        self.collect_log();
        proof {
            lemma_logging(old(self).wal, e);
            assert(self.requests() =~= old(self).requests() + logging(
                old(self).wal,
                e,
                auto_commit,
            ));
            if !auto_commit && self.wal is Some {
                lemma_one_change(&old(self).wal->0, &self.wal->0, e);
            }
        }
        self.btree.insert(&mut self.pager, key, value)?;
        proof {
            lemma_sound(self.pages(), self.root());
            lemma_sound(old(self).pages(), old(self).root());
            law_put_pairs(old(self).shape(), key@, value@);
            assert forall|q: Seq<u8>| #[trigger]
                lookup(self.entries(), q) == (if q == key@ {
                    Some(value@)
                } else {
                    lookup(old(self).entries(), q)
                }) by {
                law_put_then_get(old(self).shape(), key@, value@, q);
            }
        }
        if auto_commit {
            let ghost db2 = *self;
            self.flush_pages();
            self.clear_log();
            proof {
                assert(changed_all(old(self).file_bytes(), db2.pager.dirty_writes())
                    == self.file_bytes());
            }
        }
        Ok(())
    }

    /// Delete a key. What is refused is not logged.
    pub fn delete(&mut self, key: &[u8]) -> (r: Result<()>)
        requires
            old(self).wf(),
            valid_key(key@) ==> old(self).can_delete(key@),
        ensures
            r matches Err(KvdbError::InvalidArgument(_)) <==> !(1 <= key@.len() <= MAX_KEY_SIZE),
            match r {
                Ok(_) => {
                    &&& valid_key(key@)
                    &&& !old(self).shape().keeps(key@)
                    &&& has_key(old(self).entries(), key@)
                    &&& final(self).wf()
                    &&& final(self).sound()
                    &&& final(self).shape() == old(self).shape().without(key@)
                    &&& final(self).shape().tree.height() == old(self).shape().tree.height()
                    &&& final(self).entries() == without_key(old(self).entries(), key@)
                    &&& forall|q: Seq<u8>| #[trigger]
                        lookup(final(self).entries(), q) == (if q == key@ {
                            None
                        } else {
                            lookup(old(self).entries(), q)
                        })
                    &&& forall|e: Entry| #[trigger]
                        final(self).entries().contains(e) <==> old(self).entries().contains(e)
                            && e.0 != key@
                    &&& final(self).keeps_settings(old(self))
                    &&& final(self).logged_change(old(self), delete_record(key@))
                },
                Err(e) => {
                    &&& final(self).unchanged(old(self))
                    &&& if !valid_key(key@) {
                        e.is_invalid_argument("key size"@)
                    } else if old(self).shape().keeps(key@) {
                        e is NodeEmpty
                    } else {
                        e is KeyNotFound && !has_key(old(self).entries(), key@)
                    }
                },
            },
    {
        if key.len() == 0 || key.len() > MAX_KEY_SIZE {
            return Err(invalid_argument("key size"));
        }
        let auto_commit = self.tx_state == TransactionState::Idle;
        let ghost e = delete_record(key@);
        proof {
            lemma_sound(self.pages(), self.root());
        }
        self.btree.delete(&mut self.pager, key)?;
        if let Some(wal) = &mut self.wal {
            wal.log_delete(key)?;
            if auto_commit {
                wal.log_commit()?;
            }
        }
        self.collect_log();
        proof {
            lemma_logging(old(self).wal, e);
            assert(self.requests() =~= old(self).requests() + logging(
                old(self).wal,
                e,
                auto_commit,
            ));
            if !auto_commit && self.wal is Some {
                lemma_one_change(&old(self).wal->0, &self.wal->0, e);
            }
            lemma_shape_ok(old(self).pages(), old(self).root());
            law_delete_pairs(old(self).shape(), key@);
            assert forall|q: Seq<u8>| #[trigger]
                lookup(self.entries(), q) == (if q == key@ {
                    None
                } else {
                    lookup(old(self).entries(), q)
                }) by {
                law_delete_then_get(old(self).shape(), key@, q);
            }
        }
        if auto_commit {
            let ghost db2 = *self;
            self.flush_pages();
            self.clear_log();
            proof {
                assert(changed_all(old(self).file_bytes(), db2.pager.dirty_writes())
                    == self.file_bytes());
            }
        }
        Ok(())
    }

    /// Begin a transaction.
    pub fn begin_transaction(&mut self) -> (r: Result<()>)
        requires
            old(self).wf(),
        ensures
            final(self).wf(),
            final(self).in_transaction(),
            final(self).same_but_transaction(old(self)),
            marked(old(self), final(self), Mark::Begin, r is Ok),
            match r {
                Ok(_) => !old(self).in_transaction(),
                Err(e) => old(self).in_transaction() && e is TransactionAlreadyActive,
            },
    {
        if self.tx_state == TransactionState::Active {
            return Err(KvdbError::TransactionAlreadyActive);
        }
        self.tx_state = TransactionState::Active;
        proof {
            if self.wal is Some {
                lemma_no_changes(&self.wal->0);
            }
        }
        Ok(())
    }

    /// Commit the current transaction.
    pub fn commit(&mut self) -> (r: Result<()>)
        requires
            old(self).wf(),
            old(self).in_transaction() ==> ending_room(old(self).wal()),
        ensures
            marked(old(self), final(self), Mark::Commit, r is Ok),
            match r {
                Ok(_) => {
                    &&& old(self).in_transaction()
                    &&& final(self).wf()
                    &&& !final(self).in_transaction()
                    &&& final(self).pages() == old(self).pages()
                    &&& final(self).root() == old(self).root()
                    &&& final(self).path() == old(self).path()
                    &&& final(self).flushed(
                        old(self),
                        committing(old(self).wal()),
                        clearing(old(self).wal()),
                    )
                    &&& final(self).log_cleared(old(self))
                },
                Err(e) => {
                    &&& !old(self).in_transaction()
                    &&& e is NoActiveTransaction
                    &&& *final(self) == *old(self)
                },
            },
    {
        if self.tx_state != TransactionState::Active {
            return Err(KvdbError::NoActiveTransaction);
        }
        if let Some(wal) = &mut self.wal {
            wal.log_commit()?;
            wal.sync()?;
        }
        self.collect_log();
        proof {
            if let Some(w) = old(self).wal {
                let a = Change::Write(w.offset(), commit_record().encoded());
                assert(Seq::<Change>::empty().push(a).push(Change::Sync) =~= seq![a, Change::Sync]);
            }
            assert(self.requests() =~= old(self).requests() + committing(old(self).wal));
        }
        let ghost db1 = *self;
        self.flush_pages();
        self.clear_log();
        proof {
            assert(changed_all(old(self).file_bytes(), db1.pager.dirty_writes())
                == self.file_bytes());
        }
        self.tx_state = TransactionState::Idle;
        Ok(())
    }

    /// Abort the current transaction: the database is again as its data file has it.
    pub fn abort(&mut self) -> (r: Result<()>)
        requires
            old(self).wf(),
            old(self).in_transaction() ==> ending_room(old(self).wal()),
        ensures
            marked(old(self), final(self), Mark::Abort, r is Ok),
            match r {
                Ok(_) => {
                    &&& old(self).in_transaction()
                    &&& final(self).wf()
                    &&& !final(self).in_transaction()
                    &&& final(self).pages() == file_pages(old(self).file_bytes())
                    &&& final(self).file_bytes() == old(self).file_bytes()
                    &&& final(self).path() == old(self).path()
                    &&& final(self).requests() == old(self).requests() + aborting(old(self).wal())
                    &&& final(self).log_cleared(old(self))
                },
                Err(e) => {
                    &&& !old(self).in_transaction()
                    &&& e is NoActiveTransaction
                    &&& *final(self) == *old(self)
                },
            },
    {
        if self.tx_state != TransactionState::Active {
            return Err(KvdbError::NoActiveTransaction);
        }
        if let Some(wal) = &mut self.wal {
            wal.log_abort()?;
            wal.clear()?;
        }
        self.collect_log();
        proof {
            if let Some(w) = old(self).wal {
                let a = Change::Write(w.offset(), abort_record().encoded());
                let c = Change::SetLen(0);
                assert(Seq::<Change>::empty().push(a).push(c) =~= seq![a, c]);
            }
            assert(self.requests() =~= old(self).requests() + aborting(old(self).wal));
        }
        let _ = self.pager.contents().len();
        self.pager.revert();
        let meta = self.pager.read_metadata()?;
        self.btree = BTree::new(meta.root_page);
        proof {
            lemma_reverted_in_step(&self.pager);
        }
        self.tx_state = TransactionState::Idle;
        Ok(())
    }

    /// Get database statistics.
    pub fn stats(&mut self) -> (r: Result<Stats>)
        requires
            old(self).wf(),
            old(self).sound() || sized(meta_of(old(self).pages())),
        ensures
            final(self).unchanged(old(self)),
            r matches Ok(st) && st.are_of(meta_of(old(self).pages())),
    {
        let ghost p0 = self.pager;
        proof {
            lemma_healthy(self);
        }
        let metadata = self.pager.read_metadata()?;
        proof {
            lemma_meta_in_step(&p0, &self.pager, self.root());
        }
        let page_count: u64 = metadata.last_page_id + 1;
        proof {
            assert(page_count * metadata.page_size <= u64::MAX);
        }
        Ok(
            Stats {
                page_count,
                page_size: metadata.page_size,
                db_size: page_count * metadata.page_size as u64,
            },
        )
    }

    /// Inspect database structure.
    pub fn inspect(&mut self) -> (r: Result<InspectStats>)
        requires
            old(self).wf(),
            old(self).sound() || {
                &&& sized(meta_of(old(self).pages()))
                &&& has_free_list(old(self).pages())
                &&& old(self).readable()
                &&& countable(tree_of(old(self).pages(), old(self).root()))
            },
        ensures
            final(self).unchanged(old(self)),
            r matches Ok(st) && st.are_of(
                meta_of(old(self).pages()),
                free_list(old(self).pages()),
                tree_of(old(self).pages(), old(self).root()),
            ),
    {
        let ghost p0 = self.pager;
        proof {
            lemma_healthy(self);
        }
        let metadata = self.pager.read_metadata()?;
        proof {
            lemma_meta_in_step(&p0, &self.pager, self.root());
        }
        let page_count: u64 = metadata.last_page_id + 1;
        let ghost p1 = self.pager;
        let freelist_count = self.pager.count_freelist_pages()?;
        proof {
            lemma_free_in_step(&p1, &self.pager, self.root());
        }
        let ghost p2 = self.pager;
        let (height, node_count, leaf_count, internal_count, entry_count) = self.btree.inspect(
            &mut self.pager,
        )?;
        proof {
            lemma_read_in_step(&p2, &self.pager, self.root());
            assert(page_count * metadata.page_size <= u64::MAX);
        }
        Ok(
            InspectStats {
                page_count,
                page_size: metadata.page_size,
                db_size: page_count * metadata.page_size as u64,
                root_page_id: metadata.root_page,
                freelist_page: metadata.freelist_page,
                freelist_page_count: freelist_count,
                last_page_id: metadata.last_page_id,
                wal_offset: metadata.wal_offset,
                tree_height: height,
                node_count,
                leaf_count,
                internal_count,
                entry_count,
            },
        )
    }

    /// Verify database integrity.
    pub fn verify(&mut self) -> (r: Result<VerifyStats>)
        requires
            old(self).wf(),
            old(self).sound() || (meta_of(old(self).pages()).valid() ==> old(self).readable()
                && countable(tree_of(old(self).pages(), old(self).root()))),
        ensures
            final(self).unchanged(old(self)),
            ({
                let t = tree_of(old(self).pages(), old(self).root());
                let healthy = meta_of(old(self).pages()).valid() && t.ordered(None, None);
                match r {
                    Ok(st) => {
                        &&& healthy
                        &&& st.checked_tree_pages == t.node_count()
                        &&& st.checked_entries == t.key_count()
                        &&& st.checked_wal_records == record_count(old(self).wal())
                    },
                    Err(e) => !healthy && e is CorruptedData,
                }
            }),
            old(self).sound() ==> r is Ok,
    {
        let ghost p0 = self.pager;
        proof {
            lemma_healthy(self);
        }
        let metadata = self.pager.read_metadata()?;
        proof {
            lemma_meta_in_step(&p0, &self.pager, self.root());
        }
        if !metadata.is_valid() {
            return Err(KvdbError::CorruptedData);
        }
        let ghost p1 = self.pager;
        let checked = self.btree.verify(&mut self.pager);
        proof {
            lemma_read_in_step(&p1, &self.pager, self.root());
        }
        let (tree_pages, tree_entries) = checked?;
        let wal_records: u64 = match &mut self.wal {
            Some(wal) => match wal.read_all() {
                Ok(records) => records.len() as u64,
                Err(_) => 0,
            },
            None => 0,
        };
        Ok(
            VerifyStats {
                checked_tree_pages: tree_pages,
                checked_entries: tree_entries,
                checked_wal_records: wal_records,
            },
        )
    }

    /// Iterator over all entries (sorted by key).
    pub fn iter(&mut self) -> (r: Result<Vec<(Vec<u8>, Vec<u8>)>>)
        requires
            old(self).wf(),
            old(self).sound() || old(self).readable(),
        ensures
            final(self).unchanged(old(self)),
            r matches Ok(v) && pairs(v@) == old(self).entries(),
    {
        let ghost p0 = self.pager;
        proof {
            lemma_healthy(self);
        }
        let r = self.btree.iter_entries(&mut self.pager);
        proof {
            lemma_read_in_step(&p0, &self.pager, self.root());
        }
        r
    }

    /// Zero-copy scan over all entries. Calls the closure for each entry
    /// without heap allocation. Returns entry count.
    pub fn for_each<F>(&mut self, mut f: F) -> (r: Result<usize>) where F: FnMut(&[u8], &[u8])
        requires
            old(self).wf(),
            old(self).sound() || old(self).readable() && old(self).entries().len() <= usize::MAX,
            callable_on(f, old(self).entries()),
        ensures
            final(self).unchanged(old(self)),
            r matches Ok(n) && n == old(self).entries().len(),
            called_on(f, old(self).entries()),
            final(self).handed() == old(self).handed() + old(self).entries(),
    {
        let ghost p0 = self.pager;
        proof {
            lemma_healthy(self);
        }
        let r = self.btree.for_each_entry(&mut self.pager, &mut f);
        proof {
            lemma_read_in_step(&p0, &self.pager, self.root());
        }
        r
    }

    /// Export all entries to a writer.
    pub fn export_to_writer(&mut self, writer: &mut Vec<u8>) -> (r: Result<u64>)
        requires
            old(self).wf(),
            old(self).sound() || old(self).readable(),
        ensures
            final(self).unchanged(old(self)),
            final(writer)@ == old(writer)@ + export_bytes(old(self).entries()),
            r matches Ok(n) && n == old(self).entries().len(),
    {
        push_export_header(writer);
        let entries = self.iter()?;
        let ghost s = pairs(entries@);
        let mut i: usize = 0;
        proof {
            assert(s.take(0) =~= Seq::<Entry>::empty());
            assert(writer@ =~= old(writer)@ + (export_header() + run_bytes(s.take(0))));
        }
        while i < entries.len()
            invariant
                i <= entries@.len(),
                s == pairs(entries@),
                writer@ == old(writer)@ + (export_header() + run_bytes(s.take(i as int))),
            decreases entries@.len() - i,
        {
            let (key, value) = &entries[i];
            push_pair(writer, key.as_slice(), value.as_slice());
            proof {
                assert(s.take(i + 1).drop_last() =~= s.take(i as int));
                assert(s.take(i + 1).last() == (key@, value@));
                assert(writer@ =~= old(writer)@ + (export_header() + run_bytes(s.take(i + 1))));
            }
            i += 1;
        }
        assert(s.take(i as int) =~= s);
        Ok(i as u64)
    }

    /// Close the database: what is left to be done to its files.
    pub fn close(self) -> (r: Result<Vec<Request>>)
        requires
            self.wf(),
        ensures
            r matches Ok(v) && exists|ws: Seq<Change>|
                file_pages(#[trigger] changed_all(self.file_bytes(), ws)) == self.pages()
                    && demands(v@) == self.requests() + on_data(ws.push(Change::Sync)),
    {
        let ghost ws = self.pager.dirty_writes();
        let ghost b = self.pager.file_bytes();
        let mut db = self;
        db.flush_pages();
        assert(file_pages(changed_all(b, ws)) == db.pager.pages());
        Ok(db.requests)
    }

    /// Hands the requests over to the one who carries them out.
    pub fn take_requests(&mut self) -> (v: Vec<Request>)
        requires
            old(self).wf(),
        ensures
            demands(v@) == old(self).requests(),
            final(self).wf(),
            final(self).requests() == Seq::<Demand>::empty(),
            final(self).pages() == old(self).pages(),
            final(self).root() == old(self).root(),
            final(self).file_bytes() == old(self).file_bytes(),
            final(self).wal() == old(self).wal(),
            final(self).in_transaction() == old(self).in_transaction(),
            final(self).path() == old(self).path(),
    {
        let mut v: Vec<Request> = Vec::new();
        std::mem::swap(&mut v, &mut self.requests);
        assert(demands(self.requests@) =~= Seq::<Demand>::empty());
        v
    }

    /// Compact the database by rebuilding it.
    pub fn compact(&mut self) -> (r: Result<Stats>)
        requires
            old(self).wf(),
            old(self).can_compact(),
        ensures
            match r {
                Ok(st) => compacted(old(self), final(self), st),
                Err(e) => {
                    &&& !all_acceptable(inserts_of(old(self).entries()))
                    &&& e.is_invalid_argument("key or value size"@)
                    &&& final(self).unchanged(old(self))
                },
            },
            old(self).sound() ==> r is Ok,
    {
        proof {
            if self.sound() {
                lemma_shape_ok(self.pages(), self.root());
                lemma_all_acceptable(self.shape());
            }
        }
        let entries = self.iter()?;
        // Create temp database
        let (mut compact_pager, compact_btree) = match rebuild(&entries) {
            Rebuilt::Done(pager, btree) => (pager, btree),
            Rebuilt::Rejected(e) => {
                return Err(e);
            },
            Rebuilt::NoRoom => {
                return unreached();
            },
        };
        let ghost q = compact_pager.pages();
        let ghost root = compact_btree.root();
        compact_pager.flush()?;
        let bytes = copy_all(compact_pager.contents().as_slice());
        let ghost b = bytes@;
        proof {
            lemma_sound(q, root);
            lemma_valid_not_empty(b);
        }
        // Put the compacted file in the place of the old one
        let ghost d0 = self.requests();
        self.requests.push(Request::Replace(copy_all(bytes.as_slice())));
        assert(self.requests() =~= d0 + seq![Demand::Replace(b)]);
        // Reopen
        self.pager = Pager::new(bytes)?;
        let metadata = self.pager.read_metadata()?;
        self.btree = BTree::new(metadata.root_page);
        proof {
            lemma_reverted_in_step(&self.pager);
        }
        self.clear_log();
        proof {
            if self.wal is Some {
                lemma_no_changes(&self.wal->0);
            }
            if old(self).sound() {
                law_compact_preserves(old(self), self);
            }
        }
        self.stats()
    }

    /// Whether the pages are those of a database.
    pub fn is_sound(&mut self) -> (r: bool)
        requires
            old(self).wf(),
        ensures
            r == old(self).sound(),
            final(self).unchanged(old(self)),
    {
        let r = is_sound(&mut self.pager, self.btree.root_page_id());
        proof {
            if self.sound() {
                lemma_sound(self.pages(), self.root());
            }
        }
        match r {
            Ok(b) => b,
            Err(_) => false,
        }
    }

    /// Whether there is room for the pair.
    pub fn has_room_for(&mut self, key: &[u8], value: &[u8]) -> (r: bool)
        requires
            old(self).wf(),
            old(self).sound(),
            storable(key@, value@),
        ensures
            r == old(self).can_put(key@, value@),
            final(self).unchanged(old(self)),
    {
        let r = self.btree.can_insert(&mut self.pager, key, value);
        let fits = match r {
            Ok(b) => b,
            Err(_) => false,
        };
        let last: u64 = if self.tx_state == TransactionState::Idle {
            WAL_HEADER_SIZE as u64
        } else {
            0
        };
        let needed: u64 = WAL_HEADER_SIZE as u64 + key.len() as u64 + value.len() as u64 + last;
        let logs = match &self.wal {
            Some(wal) => wal.end() <= usize::MAX as u64 - needed,
            None => true,
        };
        fits && logs
    }

    /// Whether the tree can be read.
    pub fn is_walkable(&mut self) -> (r: bool)
        requires
            old(self).wf(),
        ensures
            r == old(self).walkable(),
            r ==> old(self).sound() || old(self).readable() && countable(
                tree_of(old(self).pages(), old(self).root()),
            ),
            final(self).unchanged(old(self)),
    {
        if self.is_sound() {
            return true;
        }
        let r = is_walkable(&mut self.pager, self.btree.root_page_id());
        proof {
            if walkable(self.pages(), self.root()) {
                lemma_walkable(self.pages(), self.root());
            }
        }
        match r {
            Ok(b) => b,
            Err(_) => false,
        }
    }

    /// Whether keys can be looked up in the tree.
    pub fn is_searchable(&mut self) -> (r: bool)
        requires
            old(self).wf(),
        ensures
            r == (old(self).walkable() && tree_of(old(self).pages(), old(self).root()).ordered(
                None,
                None,
            )),
            r ==> old(self).searchable(),
            final(self).unchanged(old(self)),
    {
        if !self.is_walkable() {
            return false;
        }
        proof {
            lemma_healthy(self);
        }
        let ghost p0 = self.pager;
        let r = self.btree.verify(&mut self.pager);
        proof {
            lemma_read_in_step(&p0, &self.pager, self.root());
        }
        r.is_ok()
    }

    /// Whether the size of the database can be told.
    pub fn is_measurable(&mut self) -> (r: bool)
        requires
            old(self).wf(),
        ensures
            r == (old(self).sound() || sized(meta_of(old(self).pages()))),
            final(self).unchanged(old(self)),
    {
        if self.is_sound() {
            return true;
        }
        match self.pager.read_metadata() {
            Ok(m) => m.last_page_id < u64::MAX && (m.last_page_id + 1).checked_mul(
                m.page_size as u64,
            ).is_some(),
            Err(_) => false,
        }
    }

    /// Whether the structure of the database can be told.
    pub fn is_inspectable(&mut self) -> (r: bool)
        requires
            old(self).wf(),
        ensures
            r == (old(self).sound() || {
                &&& old(self).walkable()
                &&& sized(meta_of(old(self).pages()))
                &&& next_of(old(self).pages()) * PAGE_SIZE <= usize::MAX
                &&& old(self).lists_free()
            }),
            r ==> old(self).sound() || {
                &&& old(self).readable()
                &&& countable(tree_of(old(self).pages(), old(self).root()))
                &&& has_free_list(old(self).pages())
            },
            final(self).unchanged(old(self)),
    {
        if self.is_sound() {
            return true;
        }
        if !self.is_walkable() || !self.is_measurable() {
            return false;
        }
        let m = match self.pager.read_metadata() {
            Ok(m) => m,
            Err(_) => {
                return false;
            },
        };
        let limit: u64 = (usize::MAX / PAGE_SIZE) as u64;
        if m.last_page_id >= limit {
            return false;
        }
        let mut used: Vec<PageId> = Vec::new();
        let r = audit_free(&mut self.pager, m.freelist_page, m.last_page_id + 1, &mut used);
        match r {
            Ok(x) => {
                let b = x.0;
                proof {
                    let l = x.1@;
                    if b {
                        lemma_distinct_bound(l, next_of(self.pages()) as nat);
                        assert(chain(self.pages(), m.freelist_page, l) && l.len() <= u64::MAX);
                        assert(old(self).lists_free());
                    }
                }
                b
            },
            Err(_) => false,
        }
    }

    /// By how many bytes the log can still grow.
    pub fn log_room_left(&self) -> (n: usize)
        ensures
            match self.wal() {
                Some(w) => n == if w.offset() <= usize::MAX {
                    usize::MAX - w.offset()
                } else {
                    0
                },
                None => n == usize::MAX,
            },
    {
        match &self.wal {
            Some(wal) => if wal.end() <= usize::MAX as u64 {
                usize::MAX - wal.end() as usize
            } else {
                0
            },
            None => usize::MAX,
        }
    }

    /// Whether there is room for the pairs in new pages.
    pub fn is_compactable(&mut self) -> (r: bool)
        requires
            old(self).wf(),
            old(self).sound() || old(self).readable(),
        ensures
            r == old(self).can_compact(),
            final(self).unchanged(old(self)),
    {
        match self.iter() {
            Ok(entries) => match rebuild(&entries) {
                Rebuilt::NoRoom => false,
                _ => true,
            },
            Err(_) => false,
        }
    }

    /// Import entries from a reader.
    pub fn import_from_reader(&mut self, reader: &[u8]) -> (r: Result<u64>)
        requires
            old(self).wf(),
            old(self).can_import(reader@),
        ensures
            imported(old(self), final(self), reader@, r),
    {
        match self.try_import(reader) {
            Some(r) => r,
            None => unreached(),
        }
    }

    /// Import entries from a reader, as long as there is room for them. `None` says that there was
    /// none; the entries before that stay.
    pub fn try_import(&mut self, reader: &[u8]) -> (r: Option<Result<u64>>)
        requires
            old(self).wf(),
        ensures
            final(self).wf(),
            match r {
                Some(r) => old(self).can_import(reader@) && imported(
                    old(self),
                    final(self),
                    reader@,
                    r,
                ),
                None => !old(self).can_import(reader@),
            },
    {
        // Read and validate header
        match check_export_header(reader) {
            Ok(_) => {},
            Err(e) => {
                return Some(Err(e));
            },
        }
        let ghost b = reader@;
        let ghost s0 = self.shape();
        let ghost all = pairs_from(b, EXPORT_HEADER_SIZE as int);
        let ghost ops = inserts_of(all);
        let mut count: u64 = 0;
        let mut o: usize = EXPORT_HEADER_SIZE;
        proof {
            assert(all.skip(0) =~= all);
            assert(all.take(0) =~= Seq::<Entry>::empty());
            assert(ops.take(0) =~= Seq::<Op>::empty());
        }
        loop
            invariant
                b == reader@,
                header_ok(b),
                all == pairs_from(b, EXPORT_HEADER_SIZE as int),
                ops == inserts_of(all),
                EXPORT_HEADER_SIZE <= o <= b.len(),
                count <= o,
                count <= all.len(),
                pairs_from(b, o as int) == all.skip(count as int),
                ending_from(b, o as int) == ending_from(b, EXPORT_HEADER_SIZE as int),
                s0 == old(self).shape(),
                import_state(old(self), self, all, count as int),
            decreases b.len() - o,
        {
            let (key, value, next) = match next_pair(reader, o) {
                Ok(Some(pair)) => pair,
                Ok(None) => {
                    proof {
                        lemma_import_end(old(self), self, b, all, count as int);
                    }
                    return Some(Ok(count));
                },
                Err(e) => {
                    proof {
                        lemma_import_end(old(self), self, b, all, count as int);
                    }
                    return Some(Err(e));
                },
            };
            proof {
                let rest = pairs_from(b, next as int);
                assert(all.skip(count as int) == seq![(key@, value@)] + rest);
                assert(all.skip(count as int)[0] == (key@, value@));
                assert(all[count as int] == (key@, value@));
                assert(all.skip(count as int).skip(1) =~= rest);
                assert(all.skip(count + 1) =~= rest);
            }
            if count == 0 && !self.is_sound() {
                return None;
            }
            if !self.has_room_for(key.as_slice(), value.as_slice()) {
                proof {
                    lemma_import_stuck(old(self), self, all, count as int);
                }
                return None;
            }
            let ghost before = *self;
            match self.put(key.as_slice(), value.as_slice()) {
                Ok(_) => {},
                Err(_) => {
                    return unreached();
                },
            }
            proof {
                lemma_import_step(old(self), &before, self, all, count as int);
            }
            count = count + 1;
            o = next;
        }
    }
}

/// Whether the metadata of a file leave a number for the next page.
fn is_numbered(data: &Vec<u8>) -> (r: bool)
    ensures
        r == numbered(file_pages(data@)),
{
    let mut page = Page::new(META_PAGE_ID);
    let n: usize = if data.len() < PAGE_SIZE {
        data.len()
    } else {
        PAGE_SIZE
    };
    page.write(0, slice_subrange(data.as_slice(), 0, n));
    assert(page.data@ =~= file_pages(data@)[META_PAGE_ID]);
    let m = MetaData::from_bytes(page.bytes());
    !m.is_valid() || m.last_page_id < u64::MAX
}

/// Whether what the log commits can be done, tried on a copy of the files.
fn can_replay(path: &str, data: &Vec<u8>, log: &Vec<u8>) -> (r: bool)
    requires
        data@.len() > 0 ==> numbered(file_pages(data@)),
    ensures
        r == can_run(start_pages(data@), root_of(start_pages(data@)), log_ops(log@, true)),
{
    let _ = data.len();
    let mut pager = match Pager::new(copy_all(data.as_slice())) {
        Ok(pager) => pager,
        Err(_) => {
            return false;
        },
    };
    assert(pager.pages() =~= start_pages(data@));
    proof {
        lemma_start_in_step(&pager, data@);
        lemma_fresh_sound();
    }
    let ghost p0 = pager;
    let root = match pager.read_metadata() {
        Ok(meta) => meta.root_page,
        Err(_) => {
            return false;
        },
    };
    proof {
        lemma_meta_in_step(&p0, &pager, root);
    }
    let mut btree = BTree::new(root);
    let mut wal = match Wal::new(path, copy_all(log.as_slice())) {
        Ok(wal) => wal,
        Err(_) => {
            return false;
        },
    };
    match wal.read_all() {
        Ok(records) => match try_replay(&mut btree, &mut pager, &records) {
            Replay::NoRoom => false,
            _ => true,
        },
        Err(_) => true,
    }
}

} // verus!
