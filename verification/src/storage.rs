//! The contents of a file, and the changes to it that are still to be carried out on disk.
use vstd::prelude::*;
use crate::bytes::{copy_all, splice};

verus! {

/// A change to a file.
#[derive(Debug)]
pub enum FileOp {
    /// Write the bytes at the offset; a gap before them is filled with zeros.
    Write { offset: u64, data: Vec<u8> },
    /// Cut the file to the length, or extend it by zeros.
    SetLen { len: u64 },
    /// Force what was written to disk.
    Sync,
}

/// The model of a change to a file.
pub enum Change {
    Write(int, Seq<u8>),
    SetLen(int),
    Sync,
}

impl View for FileOp {
    type V = Change;

    open spec fn view(&self) -> Change {
        match self {
            FileOp::Write { offset, data } => Change::Write(*offset as int, data@),
            FileOp::SetLen { len } => Change::SetLen(*len as int),
            FileOp::Sync => Change::Sync,
        }
    }
}

/// The file cut to the length, or extended by zeros.
pub open spec fn resized(b: Seq<u8>, n: int) -> Seq<u8> {
    Seq::new(n as nat, |j: int| if j < b.len() { b[j] } else { 0u8 })
}

/// The file with the bytes written at the offset.
pub open spec fn written(b: Seq<u8>, o: int, d: Seq<u8>) -> Seq<u8> {
    if d.len() == 0 {
        b
    } else if o + d.len() <= b.len() {
        splice(b, o, d)
    } else {
        splice(resized(b, o + d.len()), o, d)
    }
}

/// The file after the change.
pub open spec fn changed(b: Seq<u8>, c: Change) -> Seq<u8> {
    match c {
        Change::Write(o, d) => written(b, o, d),
        Change::SetLen(n) => resized(b, n),
        Change::Sync => b,
    }
}

/// The file after the changes, one after the other.
pub open spec fn changed_all(b: Seq<u8>, cs: Seq<Change>) -> Seq<u8>
    decreases cs.len(),
{
    if cs.len() == 0 {
        b
    } else {
        changed(changed_all(b, cs.drop_last()), cs.last())
    }
}

/// Writing to a file puts the bytes at their place, keeps all others, and fills a gap with zeros.
/// Setting its length cuts it or adds zeros, and forcing it to disk changes nothing.
pub proof fn law_file_changes(b: Seq<u8>, o: int, d: Seq<u8>, n: int, j: int)
    requires
        0 <= o,
        0 <= n,
        d.len() > 0,
    ensures
        ({
            let w = changed(b, Change::Write(o, d));
            &&& w.len() == (if o + d.len() > b.len() {
                o + d.len()
            } else {
                b.len() as int
            })
            &&& 0 <= j < w.len() ==> w[j] == (if o <= j < o + d.len() {
                d[j - o]
            } else if j < b.len() {
                b[j]
            } else {
                0u8
            })
        }),
        ({
            let r = changed(b, Change::SetLen(n));
            &&& r.len() == n
            &&& 0 <= j < n ==> r[j] == (if j < b.len() {
                b[j]
            } else {
                0u8
            })
        }),
        changed(b, Change::Write(o, Seq::empty())) == b,
        changed(b, Change::Sync) == b,
{
}

/// Changes can be made in parts.
pub proof fn lemma_changed_parts(b: Seq<u8>, x: Seq<Change>, y: Seq<Change>)
    ensures
        changed_all(b, x + y) == changed_all(changed_all(b, x), y),
    decreases y.len(),
{
    if y.len() == 0 {
        assert(x + y =~= x);
    } else {
        assert((x + y).drop_last() =~= x + y.drop_last());
        lemma_changed_parts(b, x, y.drop_last());
    }
}

/// The model of a run of changes.
pub open spec fn changes(v: Seq<FileOp>) -> Seq<Change> {
    Seq::new(v.len(), |i: int| v[i]@)
}

/// A file as the program knows it: what it holds once the pending changes are carried out.
pub struct StoredFile {
    bytes: Vec<u8>,
    pending: Vec<FileOp>,
}

impl StoredFile {
    /// What the file holds once the pending changes are carried out.
    pub closed spec fn bytes(&self) -> Seq<u8> {
        self.bytes@
    }

    /// The changes that are still to be carried out, in their order.
    pub closed spec fn pending(&self) -> Seq<Change> {
        changes(self.pending@)
    }

    /// A file that holds the bytes.
    pub fn new(bytes: Vec<u8>) -> (f: Self)
        ensures
            f.bytes() == bytes@,
            f.pending() == Seq::<Change>::empty(),
            f.bytes().len() <= usize::MAX,
    {
        let _ = bytes.len();
        let f = StoredFile { bytes, pending: Vec::new() };
        assert(f.pending() =~= Seq::<Change>::empty());
        f
    }

    /// What the file holds.
    pub fn contents(&self) -> (b: &Vec<u8>)
        ensures
            b@ == self.bytes(),
            b@.len() <= usize::MAX,
    {
        let _ = self.bytes.len();
        &self.bytes
    }

    /// Writes the bytes at the offset.
    pub fn write_at(&mut self, offset: u64, data: &[u8])
        requires
            offset + data@.len() <= usize::MAX,
        ensures
            final(self).bytes() == changed(
                old(self).bytes(),
                Change::Write(offset as int, data@),
            ),
            final(self).pending() == old(self).pending().push(
                Change::Write(offset as int, data@),
            ),
            final(self).bytes().len() <= usize::MAX,
    {
        let o: usize = offset as usize;
        let n: usize = data.len();
        let ghost b0 = self.bytes@;
        if n > 0 {
            if o + n > self.bytes.len() {
                self.bytes.resize(o + n, 0);
                proof {
                    assert forall|j: int| 0 <= j < b0.len() implies self.bytes@[j] == b0[j] by {
                        assert(self.bytes@.subrange(0, b0.len() as int)[j] == self.bytes@[j]);
                    }
                }
                assert(self.bytes@ =~= resized(b0, o + n));
            }
            let ghost b1 = self.bytes@;
            let mut i: usize = 0;
            assert(self.bytes@ =~= splice(b1, o as int, data@.subrange(0, 0)));
            while i < n
                invariant
                    i <= n == data@.len(),
                    o + n <= self.bytes@.len(),
                    o + n <= usize::MAX,
                    self.bytes@ == splice(b1, o as int, data@.subrange(0, i as int)),
                    self.pending == old(self).pending,
                decreases n - i,
            {
                self.bytes.set(o + i, data[i]);
                i += 1;
                assert(self.bytes@ =~= splice(b1, o as int, data@.subrange(0, i as int)));
            }
            assert(data@.subrange(0, n as int) =~= data@);
        }
        let ghost p0 = self.pending@;
        self.pending.push(FileOp::Write { offset, data: copy_all(data) });
        assert(changes(self.pending@) =~= changes(p0).push(Change::Write(offset as int, data@)));
        let _ = self.bytes.len();
    }

    /// Cuts the file to the length, or extends it by zeros.
    pub fn set_len(&mut self, len: u64)
        requires
            len <= usize::MAX,
        ensures
            final(self).bytes() == changed(old(self).bytes(), Change::SetLen(len as int)),
            final(self).pending() == old(self).pending().push(Change::SetLen(len as int)),
    {
        let ghost b0 = self.bytes@;
        self.bytes.resize(len as usize, 0);
        proof {
            if len > b0.len() {
                assert forall|j: int| 0 <= j < b0.len() implies self.bytes@[j] == b0[j] by {
                    assert(self.bytes@.subrange(0, b0.len() as int)[j] == self.bytes@[j]);
                }
            }
            assert(self.bytes@ =~= resized(b0, len as int));
        }
        let ghost p0 = self.pending@;
        self.pending.push(FileOp::SetLen { len });
        assert(changes(self.pending@) =~= changes(p0).push(Change::SetLen(len as int)));
    }

    /// Asks for what was written to be forced to disk.
    pub fn sync(&mut self)
        ensures
            final(self).bytes() == old(self).bytes(),
            final(self).pending() == old(self).pending().push(Change::Sync),
    {
        let ghost p0 = self.pending@;
        self.pending.push(FileOp::Sync);
        assert(changes(self.pending@) =~= changes(p0).push(Change::Sync));
    }

    /// Hands the pending changes over to the one who carries them out.
    pub fn take_pending(&mut self) -> (v: Vec<FileOp>)
        ensures
            changes(v@) == old(self).pending(),
            final(self).pending() == Seq::<Change>::empty(),
            final(self).bytes() == old(self).bytes(),
    {
        let mut v: Vec<FileOp> = Vec::new();
        std::mem::swap(&mut v, &mut self.pending);
        assert(changes(self.pending@) =~= Seq::<Change>::empty());
        v
    }
}

} // verus!
