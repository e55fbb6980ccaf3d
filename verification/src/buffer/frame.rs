//! One slot of the buffer pool: a page, the id it was read from, how many
//! users hold it pinned, and whether it differs from the disk.
use crate::page::{zero_page, Page, PageId};
use vstd::prelude::*;

verus! {

pub struct Frame {
    pub page: Page,
    pub page_id: Option<PageId>,
    pub pin_count: u32,
    pub is_dirty: bool,
}

impl Frame {
    /// A frame holding no page.
    pub fn empty() -> (f: Frame)
        ensures
            f.page@ == zero_page(),
            f.page_id is None,
            f.pin_count == 0,
            !f.is_dirty,
    {
        Frame { page: Page::new(), page_id: None, pin_count: 0, is_dirty: false }
    }

    /// The frame now holds `page`, read as `page_id`, clean and unpinned.
    pub fn reset(&mut self, page_id: PageId, page: Page)
        ensures
            final(self).page == page,
            final(self).page_id == Some(page_id),
            final(self).pin_count == 0,
            !final(self).is_dirty,
    {
        self.page = page;
        self.page_id = Some(page_id);
        self.pin_count = 0;
        self.is_dirty = false;
    }

    pub fn is_pinned(&self) -> (r: bool)
        ensures
            r == (self.pin_count > 0),
    {
        self.pin_count > 0
    }
}

} // verus!
