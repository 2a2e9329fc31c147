//! A page in memory.
use vstd::prelude::*;
use crate::bytes::{splice, zeros};
use crate::constants::{PageId, PAGE_SIZE};

verus! {

/// Represents a single database page in memory.
pub struct Page {
    pub id: PageId,
    pub data: [u8; PAGE_SIZE],
    pub is_dirty: bool,
}

impl Page {
    pub fn new(id: PageId) -> (p: Self)
        ensures
            p.id == id,
            p.data@ == zeros(PAGE_SIZE as nat),
            !p.is_dirty,
    {
        let p = Page { id, data: [0u8; PAGE_SIZE], is_dirty: false };
        assert(p.data@ =~= zeros(PAGE_SIZE as nat));
        p
    }

    pub fn clear(&mut self)
        ensures
            final(self).id == old(self).id,
            final(self).data@ == zeros(PAGE_SIZE as nat),
            final(self).is_dirty,
    {
        self.data = [0u8; PAGE_SIZE];
        self.is_dirty = true;
        assert(self.data@ =~= zeros(PAGE_SIZE as nat));
    }

    pub fn mark_dirty(&mut self)
        ensures
            *final(self) == (Page { is_dirty: true, ..*old(self) }),
    {
        self.is_dirty = true;
    }

    /// Replaces the bytes from `o` on and marks the page as changed.
    pub fn write(&mut self, o: usize, b: &[u8])
        requires
            o + b@.len() <= PAGE_SIZE,
        ensures
            final(self).id == old(self).id,
            final(self).data@ == splice(old(self).data@, o as int, b@),
            final(self).is_dirty,
    {
        let mut i: usize = 0;
        assert(self.data@ =~= splice(old(self).data@, o as int, b@.subrange(0, 0)));
        while i < b.len()
            invariant
                i <= b@.len(),
                o + b@.len() <= PAGE_SIZE,
                self.id == old(self).id,
                self.data@ == splice(old(self).data@, o as int, b@.subrange(0, i as int)),
            decreases b@.len() - i,
        {
            self.data[o + i] = b[i];
            i += 1;
            assert(self.data@ =~= splice(old(self).data@, o as int, b@.subrange(0, i as int)));
        }
        assert(b@.subrange(0, b@.len() as int) =~= b@);
        self.is_dirty = true;
    }

    /// Replaces the bytes from `start` to `end` by zeros and marks the page as changed.
    pub fn zero(&mut self, start: usize, end: usize)
        requires
            start <= end <= PAGE_SIZE,
        ensures
            final(self).id == old(self).id,
            final(self).data@ == splice(
                old(self).data@,
                start as int,
                zeros((end - start) as nat),
            ),
            final(self).is_dirty,
    {
        let mut i: usize = start;
        assert(self.data@ =~= splice(old(self).data@, start as int, zeros(0)));
        while i < end
            invariant
                start <= i <= end <= PAGE_SIZE,
                self.id == old(self).id,
                self.data@ == splice(old(self).data@, start as int, zeros((i - start) as nat)),
            decreases end - i,
        {
            self.data[i] = 0;
            i += 1;
            assert(self.data@ =~= splice(
                old(self).data@,
                start as int,
                zeros((i - start) as nat),
            ));
        }
        self.is_dirty = true;
    }

    /// The bytes of the page.
    pub fn bytes(&self) -> (s: &[u8])
        ensures
            s@ == self.data@,
            s@.len() == PAGE_SIZE,
    {
        let s = vstd::array::array_as_slice(&self.data);
        s
    }
}

} // verus!
