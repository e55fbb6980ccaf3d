//! The database file as a sequence of pages. Page `n` lives at byte
//! `n * PAGE_SIZE`; writing past the end grows the file and leaves zeroed
//! pages in the hole. Moving the bytes to and from storage is left to the
//! code that owns the file.
use crate::error::{Error, Result};
use crate::page::{lemma_page_len, zero_page, Page, PageId, PAGE_SIZE};
use vstd::prelude::*;

verus! {

broadcast use lemma_page_len;

pub struct DiskManager {
    pages: Vec<Page>,
}

impl View for DiskManager {
    type V = Seq<Seq<u8>>;

    /// The contents of the file, page by page.
    closed spec fn view(&self) -> Seq<Seq<u8>> {
        self.pages@.map_values(|p: Page| p@)
    }
}

/// Every page of a file holds `PAGE_SIZE` bytes.
pub open spec fn pages_wf(pages: Seq<Seq<u8>>) -> bool {
    forall|i: int| 0 <= i < pages.len() ==> (#[trigger] pages[i]).len() == PAGE_SIZE
}

/// The file after writing `page` as page `id`: the file grows with zeroed
/// pages up to `id` if it was shorter.
pub open spec fn written(pages: Seq<Seq<u8>>, id: int, page: Seq<u8>) -> Seq<Seq<u8>> {
    Seq::new(
        if id < pages.len() {
            pages.len()
        } else {
            (id + 1) as nat
        },
        |i: int|
            if i == id {
                page
            } else if i < pages.len() {
                pages[i]
            } else {
                zero_page()
            },
    )
}

/// Reading a page gives back what was last written to it; writing one page
/// leaves the others as they were.
pub proof fn law_read_after_write(pages: Seq<Seq<u8>>, id: int, page: Seq<u8>, other: int)
    requires
        0 <= id,
        0 <= other < pages.len(),
        other != id,
    ensures
        written(pages, id, page)[id] == page,
        written(pages, id, page)[other] == pages[other],
{
}

impl DiskManager {
    /// An empty file.
    pub fn new() -> (d: DiskManager)
        ensures
            d@ == Seq::<Seq<u8>>::empty(),
    {
        let d = DiskManager { pages: Vec::new() };
        assert(d@ =~= Seq::<Seq<u8>>::empty());
        d
    }

    /// A file holding `pages`.
    pub fn from_pages(pages: Vec<Page>) -> (d: DiskManager)
        ensures
            d@ == pages@.map_values(|p: Page| p@),
    {
        DiskManager { pages }
    }

    /// Every page of the file holds `PAGE_SIZE` bytes.
    pub proof fn lemma_pages_wf(&self)
        ensures
            pages_wf(self@),
    {
    }

    /// Number of pages in the file.
    pub fn page_count(&self) -> (r: Result<u64>)
        ensures
            r == Ok::<u64, Error>(self@.len() as u64),
            self@.len() <= u64::MAX,
    {
        Ok(self.pages.len() as u64)
    }

    /// A copy of page `page_id`.
    pub fn read_page(&self, page_id: PageId) -> (r: Result<Page>)
        ensures
            match r {
                Ok(p) => page_id.0 < self@.len() && p@ == self@[page_id.0 as int],
                Err(Error::PageOutOfRange { requested, page_count }) => {
                    &&& page_id.0 >= self@.len()
                    &&& requested == page_id.0
                    &&& page_count == self@.len()
                },
                _ => false,
            },
    {
        let page_count = self.pages.len() as u64;
        if page_id.0 >= page_count {
            return Err(Error::PageOutOfRange { requested: page_id.0, page_count });
        }
        Ok(self.pages[page_id.0 as usize].copy())
    }

    /// Writes `page` as page `page_id`; writing past the end grows the file
    /// and leaves zeroed pages in between.
    pub fn write_page(&mut self, page_id: PageId, page: &Page) -> (r: Result<()>)
        requires
            page_id.0 < usize::MAX,
        ensures
            r is Ok,
            final(self)@ == written(old(self)@, page_id.0 as int, page@),
    {
        let id = page_id.0 as usize;
        while self.pages.len() <= id
            invariant
                id < usize::MAX,
                old(self)@.len() <= self@.len(),
                self@.len() <= (if old(self)@.len() > id {
                    old(self)@.len() as int
                } else {
                    id + 1
                }),
                forall|i: int| 0 <= i < old(self)@.len() ==> #[trigger] self@[i] == old(self)@[i],
                forall|i: int|
                    old(self)@.len() <= i < self@.len() ==> #[trigger] self@[i] == zero_page(),
            decreases id + 1 - self@.len(),
        {
            let ghost before = self@;
            self.pages.push(Page::new());
            assert(self@ =~= before.push(zero_page()));
        }
        let ghost before = self@;
        self.pages.set(id, page.copy());
        assert(self@ =~= before.update(id as int, page@));
        assert(self@ =~= written(old(self)@, id as int, page@));
        Ok(())
    }

    /// Appends a zeroed page and returns its id.
    pub fn allocate_page(&mut self) -> (r: Result<PageId>)
        requires
            old(self)@.len() < usize::MAX,
        ensures
            r == Ok::<PageId, Error>(PageId(old(self)@.len() as u64)),
            final(self)@ == old(self)@.push(zero_page()),
    {
        // ids are 0-based, so with N pages the next free id is N
        let new_id = PageId(self.pages.len() as u64);
        self.pages.push(Page::new());
        assert(self@ =~= old(self)@.push(zero_page()));
        Ok(new_id)
    }
}

} // verus!
