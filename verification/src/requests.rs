//! What the database asks of the one who holds its files.
use vstd::prelude::*;
use crate::storage::{changed, changed_all, changes, Change, FileOp};

verus! {

/// Something to be done to the files of a database. Requests are to be carried out in order.
#[derive(Debug)]
pub enum Request {
    /// Change the data file.
    Data(FileOp),
    /// Change the log file.
    Log(FileOp),
    /// Write the bytes to a new file, and put it in the place of the data file.
    Replace(Vec<u8>),
}

/// The model of a request.
pub enum Demand {
    Data(Change),
    Log(Change),
    Replace(Seq<u8>),
}

impl View for Request {
    type V = Demand;

    open spec fn view(&self) -> Demand {
        match self {
            Request::Data(op) => Demand::Data(op@),
            Request::Log(op) => Demand::Log(op@),
            Request::Replace(b) => Demand::Replace(b@),
        }
    }
}

/// The model of a run of requests.
pub open spec fn demands(v: Seq<Request>) -> Seq<Demand> {
    Seq::new(v.len(), |i: int| v[i]@)
}

/// Changes to the data file.
pub open spec fn on_data(cs: Seq<Change>) -> Seq<Demand> {
    Seq::new(cs.len(), |i: int| Demand::Data(cs[i]))
}

/// Changes to the log file.
pub open spec fn on_log(cs: Seq<Change>) -> Seq<Demand> {
    Seq::new(cs.len(), |i: int| Demand::Log(cs[i]))
}

/// The data file when the requests have been carried out.
pub open spec fn data_after(b: Seq<u8>, ds: Seq<Demand>) -> Seq<u8>
    decreases ds.len(),
{
    if ds.len() == 0 {
        b
    } else {
        let before = data_after(b, ds.drop_last());
        match ds.last() {
            Demand::Data(c) => changed(before, c),
            Demand::Log(_) => before,
            Demand::Replace(bytes) => bytes,
        }
    }
}

/// The log file when the requests have been carried out.
pub open spec fn log_after(b: Seq<u8>, ds: Seq<Demand>) -> Seq<u8>
    decreases ds.len(),
{
    if ds.len() == 0 {
        b
    } else {
        let before = log_after(b, ds.drop_last());
        match ds.last() {
            Demand::Log(c) => changed(before, c),
            _ => before,
        }
    }
}

/// Requests can be carried out in parts.
pub proof fn lemma_after_parts(b: Seq<u8>, x: Seq<Demand>, y: Seq<Demand>)
    ensures
        data_after(b, x + y) == data_after(data_after(b, x), y),
        log_after(b, x + y) == log_after(log_after(b, x), y),
    decreases y.len(),
{
    if y.len() == 0 {
        assert(x + y =~= x);
    } else {
        assert((x + y).drop_last() =~= x + y.drop_last());
        lemma_after_parts(b, x, y.drop_last());
    }
}

/// Changes to one file leave the other as it is.
pub proof fn lemma_after_changes(b: Seq<u8>, cs: Seq<Change>)
    ensures
        data_after(b, on_data(cs)) == changed_all(b, cs),
        log_after(b, on_data(cs)) == b,
        log_after(b, on_log(cs)) == changed_all(b, cs),
        data_after(b, on_log(cs)) == b,
    decreases cs.len(),
{
    if cs.len() > 0 {
        lemma_after_changes(b, cs.drop_last());
        assert(on_data(cs).drop_last() =~= on_data(cs.drop_last()));
        assert(on_log(cs).drop_last() =~= on_log(cs.drop_last()));
    }
}

/// Adds changes to the data file to the requests.
pub fn push_data(requests: &mut Vec<Request>, ops: Vec<FileOp>)
    ensures
        demands(final(requests)@) == demands(old(requests)@) + on_data(changes(ops@)),
{
    let ghost d0 = demands(requests@);
    let ghost cs = changes(ops@);
    assert(on_data(cs.take(0)) =~= Seq::<Demand>::empty());
    assert(d0 + on_data(cs.take(0)) =~= d0);
    for op in it: ops
        invariant
            cs == changes(it.seq()),
            demands(requests@) == d0 + on_data(cs.take(it.index() as int)),
    {
        let ghost d1 = demands(requests@);
        let ghost i = it.index() as int;
        requests.push(Request::Data(op));
        assert(demands(requests@) =~= d1.push(Demand::Data(cs[i])));
        assert(demands(requests@) =~= d0 + on_data(cs.take(i + 1)));
    }
    assert(cs.take(cs.len() as int) =~= cs);
}

/// Adds changes to the log file to the requests.
pub fn push_log(requests: &mut Vec<Request>, ops: Vec<FileOp>)
    ensures
        demands(final(requests)@) == demands(old(requests)@) + on_log(changes(ops@)),
{
    let ghost d0 = demands(requests@);
    let ghost cs = changes(ops@);
    assert(on_log(cs.take(0)) =~= Seq::<Demand>::empty());
    assert(d0 + on_log(cs.take(0)) =~= d0);
    for op in it: ops
        invariant
            cs == changes(it.seq()),
            demands(requests@) == d0 + on_log(cs.take(it.index() as int)),
    {
        let ghost d1 = demands(requests@);
        let ghost i = it.index() as int;
        requests.push(Request::Log(op));
        assert(demands(requests@) =~= d1.push(Demand::Log(cs[i])));
        assert(demands(requests@) =~= d0 + on_log(cs.take(i + 1)));
    }
    assert(cs.take(cs.len() as int) =~= cs);
}

} // verus!
