//! What the records of a log amount to, and doing it.
use vstd::prelude::*;
use crate::audit::is_sound;
use crate::btree::BTree;
use crate::constants::{MetaData, PageId, WalRecordType, MAX_KEY_SIZE, MAX_VALUE_SIZE, ROOT_PAGE_ID};
use crate::entries::{pairs, Entry};
use crate::error::KvdbError;
use crate::pager::{fresh_pages, meta_of, same_settings, Pager, Pages};
use crate::shape::{empty_shape, lemma_fresh_sound, shape_of, storable, Shape};
use crate::space::in_step;
use crate::store::sound;
use crate::wal::{logged, LogEntry, WalRecord};

verus! {

/// A change to what a database holds.
pub enum Op {
    Insert(Seq<u8>, Seq<u8>),
    Delete(Seq<u8>),
}

/// The change that a record tells of. A binding without a value binds the empty one.
pub open spec fn op_of(e: LogEntry) -> Op {
    match e.kind {
        WalRecordType::Insert => Op::Insert(e.key, e.body()),
        _ => Op::Delete(e.key),
    }
}

/// The record tells of a change.
pub open spec fn is_change(e: LogEntry) -> bool {
    e.kind == WalRecordType::Insert || e.kind == WalRecordType::Delete
}

/// What the records leave open: the changes since the last commit or abort, in their order.
pub open spec fn open_ops(rs: Seq<LogEntry>) -> Seq<Op>
    decreases rs.len(),
{
    if rs.len() == 0 || !is_change(rs.last()) {
        Seq::empty()
    } else {
        open_ops(rs.drop_last()).push(op_of(rs.last()))
    }
}

/// The changes that the records commit, in the order in which they are made.
pub open spec fn committed(rs: Seq<LogEntry>) -> Seq<Op>
    decreases rs.len(),
{
    if rs.len() == 0 {
        Seq::empty()
    } else if rs.last().kind == WalRecordType::Commit {
        committed(rs.drop_last()) + open_ops(rs.drop_last())
    } else {
        committed(rs.drop_last())
    }
}

/// There is a commit among the records.
pub open spec fn has_commit(rs: Seq<LogEntry>) -> bool {
    exists|i: int| 0 <= i < rs.len() && (#[trigger] rs[i]).kind == WalRecordType::Commit
}

/// The database after the change.
pub open spec fn step(s: Shape, op: Op) -> Shape {
    match op {
        Op::Insert(k, v) => s.with(k, v),
        Op::Delete(k) => s.without(k),
    }
}

/// The database after the changes, one after the other.
pub open spec fn run(s: Shape, ops: Seq<Op>) -> Shape
    decreases ops.len(),
{
    if ops.len() == 0 {
        s
    } else {
        step(run(s, ops.drop_last()), ops.last())
    }
}

/// The change binds no key, or one that can be stored with its value.
pub open spec fn acceptable(op: Op) -> bool {
    op matches Op::Insert(k, v) ==> storable(k, v)
}

/// All the changes are acceptable.
pub open spec fn all_acceptable(ops: Seq<Op>) -> bool {
    forall|i: int| 0 <= i < ops.len() ==> acceptable(#[trigger] ops[i])
}

/// There is room for the change.
pub open spec fn has_room(s: Shape, op: Op) -> bool {
    op matches Op::Insert(k, v) ==> s.fits(k, v)
}

/// There is room for the changes up to the first that is not acceptable.
pub open spec fn run_fits(s: Shape, ops: Seq<Op>) -> bool {
    forall|n: int|
        0 <= n < ops.len() && all_acceptable(ops.take(n + 1)) ==> has_room(
            #[trigger] run(s, ops.take(n)),
            ops[n],
        )
}

/// The changes can be made to the database that the pages hold.
pub open spec fn can_run(pages: Pages, root: PageId, ops: Seq<Op>) -> bool {
    ops.len() > 0 ==> sound(pages, root) && run_fits(shape_of(pages, root), ops)
}

/// How the replay of a log ends.
pub enum Replay {
    /// The committed changes were made.
    Done { any_commit: bool },
    /// A committed change was rejected.
    Rejected(KvdbError),
    /// There is no room for a committed change, or the pages are not those of a database.
    NoRoom,
}

proof fn lemma_run_next(s: Shape, ops: Seq<Op>, n: int)
    requires
        0 <= n < ops.len(),
    ensures
        run(s, ops.take(n + 1)) == step(run(s, ops.take(n)), ops[n]),
{
    assert(ops.take(n + 1).drop_last() =~= ops.take(n));
    assert(ops.take(n + 1).last() == ops[n]);
}

proof fn lemma_acceptable_next(ops: Seq<Op>, n: int)
    requires
        0 <= n < ops.len(),
        all_acceptable(ops.take(n)),
    ensures
        all_acceptable(ops.take(n + 1)) <==> acceptable(ops[n]),
        !acceptable(ops[n]) ==> !all_acceptable(ops),
{
    let a = ops.take(n);
    let b = ops.take(n + 1);
    assert(b[n] == ops[n]);
    if acceptable(ops[n]) {
        assert forall|i: int| 0 <= i < b.len() implies acceptable(#[trigger] b[i]) by {
            if i < n {
                assert(a[i] == b[i]);
            }
        }
    }
}

/// What the first records commit is the start of what all of them commit.
proof fn lemma_committed_start(rs: Seq<LogEntry>, i: int)
    requires
        0 <= i <= rs.len(),
    ensures
        committed(rs.take(i)).len() <= committed(rs).len(),
        committed(rs).take(committed(rs.take(i)).len() as int) == committed(rs.take(i)),
    decreases rs.len() - i,
{
    if i == rs.len() {
        assert(rs.take(i) =~= rs);
        assert(committed(rs).take(committed(rs).len() as int) =~= committed(rs));
    } else {
        lemma_committed_start(rs, i + 1);
        let a = committed(rs.take(i));
        let b = committed(rs.take(i + 1));
        assert(rs.take(i + 1).drop_last() =~= rs.take(i));
        assert(b.take(a.len() as int) =~= a);
        assert(committed(rs).take(a.len() as int) =~= committed(rs).take(b.len() as int).take(
            a.len() as int,
        ));
    }
}

/// The state of a replay after `n` changes.
spec fn replayed(
    pager: &Pager,
    root: PageId,
    before: &Pager,
    root0: PageId,
    ops: Seq<Op>,
    n: int,
) -> bool {
    &&& 0 <= n <= ops.len()
    &&& all_acceptable(ops.take(n))
    &&& pager.wf()
    &&& pager.file_bytes() == before.file_bytes()
    &&& pager.pending() == before.pending()
    &&& meta_of(pager.pages()).root_page == root
    &&& same_settings(meta_of(before.pages()), meta_of(pager.pages()))
    &&& n == 0 ==> {
        &&& pager.pages() == before.pages()
        &&& pager.dirty_writes() == before.dirty_writes()
        &&& root == root0
        &&& sound(pager.pages(), root) ==> in_step(pager)
    }
    &&& n > 0 ==> {
        &&& sound(before.pages(), root0)
        &&& sound(pager.pages(), root)
        &&& in_step(pager)
        &&& shape_of(pager.pages(), root) == run(shape_of(before.pages(), root0), ops.take(n))
        &&& forall|i: int|
            0 <= i < n ==> has_room(
                #[trigger] run(shape_of(before.pages(), root0), ops.take(i)),
                ops[i],
            )
    }
}

/// How making one change ends.
enum Made {
    Yes,
    No(KvdbError),
    NoRoom,
}

/// Makes the next change.
fn make_next(
    btree: &mut BTree,
    pager: &mut Pager,
    first: bool,
    insert: bool,
    key: &[u8],
    value: &[u8],
    Ghost(before): Ghost<Pager>,
    Ghost(root0): Ghost<PageId>,
    Ghost(ops): Ghost<Seq<Op>>,
    Ghost(n): Ghost<int>,
) -> (r: Made)
    requires
        n < ops.len(),
        replayed(old(pager), old(btree).root(), &before, root0, ops, n),
        first == (n == 0),
        ops[n] == (if insert {
            Op::Insert(key@, value@)
        } else {
            Op::Delete(key@)
        }),
    ensures
        match r {
            Made::Yes => replayed(final(pager), final(btree).root(), &before, root0, ops, n + 1),
            Made::No(e) => {
                &&& e.is_invalid_argument("key or value size"@)
                &&& !all_acceptable(ops)
                &&& can_run(before.pages(), root0, ops)
            },
            Made::NoRoom => !can_run(before.pages(), root0, ops),
        },
{
    let ghost s0 = shape_of(before.pages(), root0);
    proof {
        lemma_run_next(s0, ops, n);
        lemma_acceptable_next(ops, n);
        assert(ops.take(0) =~= Seq::<Op>::empty());
    }
    if !known_sound(btree, pager, first, Ghost(before), Ghost(root0), Ghost(ops), Ghost(n)) {
        return Made::NoRoom;
    }
    if !insert {
        let r = btree.delete(pager, key);
        proof {
            assert forall|i: int| 0 <= i < n + 1 implies has_room(
                #[trigger] run(s0, ops.take(i)),
                ops[i],
            ) by {}
        }
        return Made::Yes;
    }
    if key.len() == 0 || key.len() > MAX_KEY_SIZE || value.len() > MAX_VALUE_SIZE {
        proof {
            assert(run_fits(s0, ops)) by {
                assert forall|m: int|
                    0 <= m < ops.len() && all_acceptable(ops.take(m + 1)) implies has_room(
                    #[trigger] run(s0, ops.take(m)),
                    ops[m],
                ) by {
                    if m >= n {
                        assert(ops.take(m + 1)[n] == ops[n]);
                    }
                }
            }
        }
        return match btree.insert(pager, key, value) {
            Ok(_) => Made::Yes,
            Err(e) => Made::No(e),
        };
    }
    match btree.can_insert(pager, key, value) {
        Ok(true) => {},
        _ => {
            proof {
                assert(!has_room(run(s0, ops.take(n)), ops[n]));
            }
            return Made::NoRoom;
        },
    }
    match btree.insert(pager, key, value) {
        Ok(_) => {
            proof {
                assert forall|i: int| 0 <= i < n + 1 implies has_room(
                    #[trigger] run(s0, ops.take(i)),
                    ops[i],
                ) by {}
            }
            Made::Yes
        },
        Err(e) => Made::No(e),
    }
}

/// Whether the pages are sound. They stay so, and are checked before the first change alone.
fn known_sound(
    btree: &BTree,
    pager: &mut Pager,
    first: bool,
    Ghost(before): Ghost<Pager>,
    Ghost(root0): Ghost<PageId>,
    Ghost(ops): Ghost<Seq<Op>>,
    Ghost(n): Ghost<int>,
) -> (r: bool)
    requires
        n < ops.len(),
        replayed(old(pager), btree.root(), &before, root0, ops, n),
        first == (n == 0),
    ensures
        replayed(final(pager), btree.root(), &before, root0, ops, n),
        final(pager).pages() == old(pager).pages(),
        r == sound(old(pager).pages(), btree.root()),
        r ==> in_step(final(pager)),
        !r ==> n == 0,
{
    if !first {
        return true;
    }
    match is_sound(pager, btree.root_page_id()) {
        Ok(b) => b,
        Err(_) => false,
    }
}

/// Makes the changes that the records commit.
pub fn try_replay(btree: &mut BTree, pager: &mut Pager, records: &Vec<WalRecord>) -> (r: Replay)
    requires
        old(pager).wf(),
        old(btree).root() == meta_of(old(pager).pages()).root_page,
        sound(old(pager).pages(), old(btree).root()) ==> in_step(old(pager)),
    ensures
        ({
            let p = old(pager).pages();
            let root = old(btree).root();
            let ops = committed(logged(records@));
            match r {
                Replay::Done { any_commit } => {
                    &&& can_run(p, root, ops)
                    &&& all_acceptable(ops)
                    &&& any_commit == has_commit(logged(records@))
                    &&& final(pager).wf()
                    &&& final(pager).file_bytes() == old(pager).file_bytes()
                    &&& final(pager).pending() == old(pager).pending()
                    &&& meta_of(final(pager).pages()).root_page == final(btree).root()
                    &&& same_settings(meta_of(p), meta_of(final(pager).pages()))
                    &&& sound(final(pager).pages(), final(btree).root()) ==> in_step(final(pager))
                    &&& ops.len() == 0 ==> {
                        &&& final(pager).pages() == p
                        &&& final(pager).dirty_writes() == old(pager).dirty_writes()
                        &&& final(btree).root() == root
                    }
                    &&& ops.len() > 0 ==> {
                        &&& sound(final(pager).pages(), final(btree).root())
                        &&& shape_of(final(pager).pages(), final(btree).root()) == run(
                            shape_of(p, root),
                            ops,
                        )
                    }
                },
                Replay::Rejected(e) => {
                    &&& can_run(p, root, ops)
                    &&& !all_acceptable(ops)
                    &&& e.is_invalid_argument("key or value size"@)
                },
                Replay::NoRoom => !can_run(p, root, ops),
            }
        }),
{
    let ghost before = *pager;
    let ghost root0 = btree.root();
    let ghost rs = logged(records@);
    let ghost ops = committed(rs);
    let ghost mut n: int = 0;
    // The changes from `start` on wait for a commit
    let mut start: usize = 0;
    let none: Vec<u8> = Vec::new();
    let mut any_commit = false;
    let mut first = true;
    proof {
        assert(rs.take(0) =~= Seq::<LogEntry>::empty());
        assert(ops.take(0) =~= Seq::<Op>::empty());
        assert(none@ =~= Seq::<u8>::empty());
    }
    let mut i: usize = 0;
    while i < records.len()
        invariant
            start <= i <= records@.len(),
            none@ == Seq::<u8>::empty(),
            rs == logged(records@),
            ops == committed(rs),
            before == *old(pager),
            root0 == old(btree).root(),
            n == committed(rs.take(i as int)).len(),
            first == (n == 0),
            replayed(pager, btree.root(), &before, root0, ops, n),
            open_ops(rs.take(i as int)).len() == i - start,
            forall|x: int|
                start <= x < i ==> is_change(#[trigger] rs[x]) && open_ops(rs.take(i as int))[x
                    - start] == op_of(rs[x]),
            any_commit == has_commit(rs.take(i as int)),
        decreases records@.len() - i,
    {
        let record = &records[i];
        let ghost e = rs[i as int];
        let ghost b = open_ops(rs.take(i as int));
        proof {
            assert(e == record@);
            assert(rs.take(i + 1).drop_last() =~= rs.take(i as int));
            assert(rs.take(i + 1).last() == e);
            lemma_has_commit_next(rs, i as int);
            lemma_committed_start(rs, i + 1);
        }
        match record.record_type {
            WalRecordType::Insert => {},
            WalRecordType::Delete => {},
            WalRecordType::Commit => {
                let ghost n0 = n;
                let ghost all = committed(rs.take(i + 1));
                proof {
                    assert forall|x: int| 0 <= x < all.len() implies #[trigger] ops[x]
                        == all[x] by {
                        assert(ops.take(all.len() as int)[x] == ops[x]);
                    }
                    assert(all == committed(rs.take(i as int)) + b);
                }
                let mut j: usize = start;
                while j < i
                    invariant
                        start <= j <= i < records@.len(),
                        none@ == Seq::<u8>::empty(),
                        before == *old(pager),
                        root0 == old(btree).root(),
                        rs == logged(records@),
                        ops == committed(rs),
                        n == n0 + (j - start),
                        n0 >= 0,
                        b.len() == i - start,
                        n0 + b.len() <= ops.len(),
                        forall|x: int|
                            start <= x < i ==> is_change(#[trigger] rs[x]) && b[x - start]
                                == op_of(rs[x]),
                        forall|x: int| 0 <= x < b.len() ==> ops[n0 + x] == b[x],
                        first == (n == 0),
                        replayed(pager, btree.root(), &before, root0, ops, n),
                    decreases i - j,
                {
                    let change = &records[j];
                    let insert = change.record_type == WalRecordType::Insert;
                    let value = match &change.value {
                        Some(value) => value.as_slice(),
                        None => none.as_slice(),
                    };
                    proof {
                        assert(rs[j as int] == change@);
                        assert(ops[n0 + (j - start)] == b[j - start]);
                    }
                    // A key that is gone already, or that is kept, does not matter
                    match make_next(
                        btree,
                        pager,
                        first,
                        insert,
                        change.key.as_slice(),
                        value,
                        Ghost(before),
                        Ghost(root0),
                        Ghost(ops),
                        Ghost(n),
                    ) {
                        Made::Yes => {},
                        Made::No(e) => {
                            return Replay::Rejected(e);
                        },
                        Made::NoRoom => {
                            return Replay::NoRoom;
                        },
                    }
                    first = false;
                    proof {
                        n = n + 1;
                    }
                    j += 1;
                }
                start = i + 1;
                any_commit = true;
            },
            WalRecordType::Abort => {
                start = i + 1;
            },
        }
        i += 1;
    }
    proof {
        assert(rs.take(i as int) =~= rs);
        assert(ops.take(n) =~= ops);
    }
    Replay::Done { any_commit }
}

proof fn lemma_has_commit_next(rs: Seq<LogEntry>, i: int)
    requires
        0 <= i < rs.len(),
    ensures
        has_commit(rs.take(i + 1)) <==> has_commit(rs.take(i)) || rs[i].kind
            == WalRecordType::Commit,
{
    let a = rs.take(i);
    let b = rs.take(i + 1);
    if has_commit(a) {
        let j = choose|j: int| 0 <= j < a.len() && (#[trigger] a[j]).kind == WalRecordType::Commit;
        assert(b[j] == a[j]);
    }
    if rs[i].kind == WalRecordType::Commit {
        assert(b[i] == rs[i]);
    }
    if has_commit(b) {
        let j = choose|j: int| 0 <= j < b.len() && (#[trigger] b[j]).kind == WalRecordType::Commit;
        if j < i {
            assert(a[j] == b[j]);
        }
    }
}

/// Changes are committed by a commit.
pub proof fn lemma_some_commit(rs: Seq<LogEntry>)
    ensures
        committed(rs).len() > 0 ==> has_commit(rs),
    decreases rs.len(),
{
    if rs.len() > 0 {
        let qs = rs.drop_last();
        lemma_some_commit(qs);
        if rs.last().kind == WalRecordType::Commit {
            assert(rs[rs.len() - 1].kind == WalRecordType::Commit);
        } else if has_commit(qs) {
            let i = choose|i: int|
                0 <= i < qs.len() && (#[trigger] qs[i]).kind == WalRecordType::Commit;
            assert(rs[i] == qs[i]);
        }
    }
}

/// The changes that bind the pairs, one after the other.
pub open spec fn inserts_of(s: Seq<Entry>) -> Seq<Op> {
    Seq::new(s.len(), |i: int| Op::Insert(s[i].0, s[i].1))
}

/// How building a new database ends.
pub enum Rebuilt {
    /// The pairs are in new pages.
    Done(Pager, BTree),
    /// A pair was rejected.
    Rejected(KvdbError),
    /// There is no room for a pair.
    NoRoom,
}

/// Builds a new database that holds the pairs.
pub fn rebuild(entries: &Vec<(Vec<u8>, Vec<u8>)>) -> (r: Rebuilt)
    ensures
        ({
            let ops = inserts_of(pairs(entries@));
            match r {
                Rebuilt::Done(pager, btree) => {
                    &&& can_run(fresh_pages(), ROOT_PAGE_ID, ops)
                    &&& all_acceptable(ops)
                    &&& pager.wf()
                    &&& sound(pager.pages(), btree.root())
                    &&& meta_of(pager.pages()).root_page == btree.root()
                    &&& same_settings(MetaData::fresh(), meta_of(pager.pages()))
                    &&& shape_of(pager.pages(), btree.root()) == run(empty_shape(), ops)
                },
                Rebuilt::Rejected(e) => {
                    &&& can_run(fresh_pages(), ROOT_PAGE_ID, ops)
                    &&& !all_acceptable(ops)
                    &&& e.is_invalid_argument("key or value size"@)
                },
                Rebuilt::NoRoom => !can_run(fresh_pages(), ROOT_PAGE_ID, ops),
            }
        }),
{
    let ghost s = pairs(entries@);
    let ghost ops = inserts_of(s);
    let mut pager = match Pager::new(Vec::new()) {
        Ok(pager) => pager,
        Err(e) => {
            return Rebuilt::Rejected(e);
        },
    };
    let mut btree = BTree::new(ROOT_PAGE_ID);
    let ghost before = pager;
    proof {
        lemma_fresh_sound();
        assert(ops.take(0) =~= Seq::<Op>::empty());
    }
    let mut i: usize = 0;
    while i < entries.len()
        invariant
            i <= entries@.len(),
            s == pairs(entries@),
            ops == inserts_of(s),
            before.pages() == fresh_pages(),
            replayed(&pager, btree.root(), &before, ROOT_PAGE_ID, ops, i as int),
        decreases entries@.len() - i,
    {
        let (key, value) = &entries[i];
        assert(s[i as int] == (key@, value@));
        match make_next(
            &mut btree,
            &mut pager,
            i == 0,
            true,
            key.as_slice(),
            value.as_slice(),
            Ghost(before),
            Ghost(ROOT_PAGE_ID),
            Ghost(ops),
            Ghost(i as int),
        ) {
            Made::Yes => {},
            Made::No(e) => {
                return Rebuilt::Rejected(e);
            },
            Made::NoRoom => {
                return Rebuilt::NoRoom;
            },
        }
        i += 1;
    }
    assert(ops.take(i as int) =~= ops);
    Rebuilt::Done(pager, btree)
}

} // verus!
