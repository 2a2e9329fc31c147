//! Whether there is room in memory for the pages that one more pair may take.
use vstd::prelude::*;
use crate::audit::descend;
use crate::btree::BTree;
use crate::constants::PAGE_SIZE;
use crate::error::Result;
use crate::pager::Pager;
use crate::shape::{shape_of, storable};
use crate::space::in_step;
use crate::store::{lemma_sound, sound};

verus! {

impl BTree {
    /// Whether there is room in memory to bind the key to the value.
    pub fn can_insert(&self, pager: &mut Pager, key: &[u8], value: &[u8]) -> (r: Result<bool>)
        requires
            in_step(old(pager)),
            sound(old(pager).pages(), self.root()),
            storable(key@, value@),
        ensures
            r matches Ok(b) && b == shape_of(old(pager).pages(), self.root()).fits(key@, value@),
            in_step(final(pager)),
            final(pager).pages() == old(pager).pages(),
            final(pager).file_bytes() == old(pager).file_bytes(),
            final(pager).pending() == old(pager).pending(),
            final(pager).dirty_writes() == old(pager).dirty_writes(),
    {
        proof {
            lemma_sound(pager.pages(), self.root());
        }
        let next = pager.next_number();
        let h: u32 = match descend(pager, self.root_page_id(), next)? {
            Some(h) => h,
            None => {
                return Ok(false);
            },
        };
        let needed: u64 = 2 * h as u64 + 5;
        let limit: u64 = (usize::MAX / PAGE_SIZE) as u64;
        if next <= limit - needed {
            return Ok(true);
        }
        let free = pager.count_freelist_pages()?;
        Ok(needed <= free || next <= limit - (needed - free))
    }
}

} // verus!
