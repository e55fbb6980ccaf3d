//! The buffer pool: a fixed set of frames caching pages of the disk, with
//! pins that keep a page in its frame and LRU eviction of unpinned frames.
mod frame;
pub mod replacer;

use crate::disk::DiskManager;
use crate::error::{Error, Result};
use crate::page::{lemma_page_len, zero_page, Page, PageId};
use frame::Frame;
use replacer::{touched, without, LruReplacer};
use std::collections::HashMap;
use vstd::prelude::*;

verus! {

broadcast use vstd::std_specs::hash::group_hash_axioms, lemma_page_len;

pub proof fn lemma_without_contains(o: Seq<FrameId>, f: FrameId, g: FrameId)
    ensures
        without(o, f).contains(g) <==> (o.contains(g) && g != f),
    decreases o.len(),
{
    if o.len() > 0 {
        lemma_without_contains(o.drop_last(), f, g);
        let w = without(o.drop_last(), f);
        if o.contains(g) && g != f {
            let k = choose|k: int| 0 <= k < o.len() && o[k] == g;
            if k < o.len() - 1 {
                assert(o.drop_last()[k] == g);
            }
        }
        if o.drop_last().contains(g) {
            let k = choose|k: int| 0 <= k < o.drop_last().len() && o.drop_last()[k] == g;
            assert(o[k] == g);
        }
        if o.last() != f {
            assert(w.push(o.last())[w.len() as int] == o.last());
            if w.push(o.last()).contains(g) {
                let k = choose|k: int| 0 <= k < w.len() + 1 && w.push(o.last())[k] == g;
                if k < w.len() {
                    assert(w[k] == g);
                }
            }
            if w.contains(g) {
                let k = choose|k: int| 0 <= k < w.len() && w[k] == g;
                assert(w.push(o.last())[k] == g);
            }
        }
    }
}

proof fn lemma_touched_contains(o: Seq<FrameId>, f: FrameId, g: FrameId)
    ensures
        touched(o, f).contains(g) <==> (o.contains(g) || g == f),
{
    lemma_without_contains(o, f, g);
    let t = touched(o, f);
    let w = without(o, f);
    assert(t[0] == f);
    if w.contains(g) {
        let k = choose|k: int| 0 <= k < w.len() && w[k] == g;
        assert(t[k + 1] == g);
    }
    if t.contains(g) && g != f {
        let k = choose|k: int| 0 <= k < t.len() && t[k] == g;
        assert(w[k - 1] == g);
    }
}

/// Index of a frame of the pool.
pub type FrameId = usize;

pub struct BufferPool {
    frames: Vec<Frame>,
    page_table: HashMap<u64, FrameId>,
    free_list: Vec<FrameId>,
    replacer: LruReplacer,
    disk: DiskManager,
}

impl BufferPool {
    pub closed spec fn frame_count(&self) -> nat {
        self.frames@.len()
    }

    /// The page id that frame `f` holds, if any.
    pub closed spec fn frame_of(&self, f: int) -> Option<PageId> {
        self.frames@[f].page_id
    }

    /// The bytes in frame `f`.
    pub closed spec fn frame_page(&self, f: int) -> Seq<u8> {
        self.frames@[f].page@
    }

    /// How many users hold frame `f` pinned.
    pub closed spec fn frame_pin(&self, f: int) -> u32 {
        self.frames@[f].pin_count
    }

    /// Whether page `pid` sits in a frame.
    pub closed spec fn cached(&self, pid: u64) -> bool {
        self.page_table@.contains_key(pid)
    }

    /// How many users hold page `pid` pinned.
    pub closed spec fn pin(&self, pid: u64) -> u32 {
        if self.page_table@.contains_key(pid) {
            self.frames@[self.page_table@[pid] as int].pin_count
        } else {
            0
        }
    }

    /// The current contents of page `pid`: the frame's bytes while cached,
    /// else the disk's.
    pub closed spec fn page_view(&self, pid: int) -> Seq<u8> {
        if self.page_table@.contains_key(pid as u64) {
            self.frames@[self.page_table@[pid as u64] as int].page@
        } else {
            self.disk@[pid]
        }
    }

    /// The current contents of every page of the database.
    pub closed spec fn pages(&self) -> Seq<Seq<u8>> {
        Seq::new(self.disk@.len(), |i: int| self.page_view(i))
    }

    /// What the disk holds, flushed or not.
    pub closed spec fn disk_view(&self) -> Seq<Seq<u8>> {
        self.disk@
    }

    /// Whether a frame can be had without waiting for an unpin.
    pub closed spec fn has_free_frame(&self) -> bool {
        self.free_list@.len() > 0 || self.replacer@.len() > 0
    }

    pub open spec fn all_unpinned(&self) -> bool {
        forall|f: int| 0 <= f < self.frame_count() ==> #[trigger] self.frame_pin(f) == 0
    }

    /// Frame ids, pins and the frames of other pages are as in `other`.
    pub open spec fn same_frames_except(&self, other: &BufferPool, f: int) -> bool {
        &&& self.frame_count() == other.frame_count()
        &&& forall|g: int|
            0 <= g < self.frame_count() && g != f ==> #[trigger] self.frame_of(g) == other.frame_of(
                g,
            )
        &&& forall|g: int|
            0 <= g < self.frame_count() && g != f ==> #[trigger] self.frame_pin(g) == other.frame_pin(
                g,
            )
    }

    pub closed spec fn wf(&self) -> bool {
        let n = self.frames@.len();
        let table = self.page_table@;
        let free = self.free_list@;
        let disk = self.disk@;
        &&& self.replacer.wf()
        &&& self.replacer.capacity() == n
        &&& disk.len() <= u64::MAX
        &&& disk.len() < usize::MAX
        &&& forall|i: int| 0 <= i < disk.len() ==> (#[trigger] disk[i]).len() == 4096
        &&& forall|pid: u64|
            #[trigger] table.contains_key(pid) ==> table[pid] < n && self.frames@[table[pid] as int].page_id
                == Some(PageId(pid)) && pid < disk.len()
        &&& forall|f: int|
            0 <= f < n && (#[trigger] self.frames@[f]).page_id is Some ==> {
                let p = self.frames@[f].page_id->0;
                &&& table.contains_key(p.0)
                &&& table[p.0] == f
                &&& p.0 < disk.len()
                &&& !self.frames@[f].is_dirty ==> self.frames@[f].page@ == disk[p.0 as int]
            }
        &&& free.no_duplicates()
        &&& forall|k: int| 0 <= k < free.len() ==> #[trigger] free[k] < n
        &&& forall|f: FrameId|
            f < n ==> ((#[trigger] self.frames@[f as int]).page_id is None <==> free.contains(f))
        &&& forall|f: int| 0 <= f < n && (#[trigger] self.frames@[f]).page_id is None ==> self.frames@[f].pin_count == 0
        &&& forall|f: FrameId|
            f < n ==> (((#[trigger] self.frames@[f as int]).page_id is Some
                && self.frames@[f as int].pin_count == 0) <==> self.replacer@.contains(f))
    }

    /// With nothing pinned and at least one frame, a frame can always be had.
    pub proof fn lemma_unpinned_has_free_frame(&self)
        requires
            self.wf(),
            self.all_unpinned(),
            self.frame_count() > 0,
        ensures
            self.has_free_frame(),
    {
        if self.frames@[0].page_id is None {
            assert(self.free_list@.contains(0usize));
        } else {
            assert(self.frame_pin(0) == 0);
            assert(self.replacer@.contains(0usize));
        }
    }

    /// One unpinned frame is enough for a frame to be had.
    pub proof fn lemma_unpinned_frame_free(&self, f: FrameId)
        requires
            self.wf(),
            f < self.frame_count(),
            self.frame_pin(f as int) == 0,
        ensures
            self.has_free_frame(),
    {
        if self.frames@[f as int].page_id is None {
            assert(self.free_list@.contains(f));
        } else {
            assert(self.replacer@.contains(f));
        }
    }

    /// The file has fewer pages than a page id can count.
    pub proof fn lemma_pages_len(&self)
        requires
            self.wf(),
        ensures
            self.pages().len() <= u64::MAX,
    {
    }

    /// With nothing pinned, no page is pinned.
    pub proof fn lemma_unpinned_pin(&self, pid: u64)
        requires
            self.wf(),
            self.all_unpinned(),
        ensures
            self.pin(pid) == 0,
    {
        if self.page_table@.contains_key(pid) {
            assert(self.frame_pin(self.page_table@[pid] as int) == 0);
        }
    }

    /// A pool of `frame_count` empty frames over `disk`.
    pub fn open(disk: DiskManager, frame_count: usize) -> (pool: BufferPool)
        requires
            disk@.len() < usize::MAX,
            forall|i: int| 0 <= i < disk@.len() ==> (#[trigger] disk@[i]).len() == 4096,
        ensures
            pool.wf(),
            pool.frame_count() == frame_count,
            pool.pages() == disk@,
            pool.disk_view() == disk@,
            pool.all_unpinned(),
    {
        let _ = disk.page_count();
        let mut frames: Vec<Frame> = Vec::new();
        let mut free_list: Vec<FrameId> = Vec::new();
        let mut i: usize = 0;
        while i < frame_count
            invariant
                0 <= i <= frame_count,
                frames@.len() == i,
                forall|f: int|
                    0 <= f < i ==> (#[trigger] frames@[f]).page_id is None && frames@[f].pin_count
                        == 0,
            decreases frame_count - i,
        {
            frames.push(Frame::empty());
            i = i + 1;
        }
        // popped from the back, so frame 0 is handed out first
        let mut j: usize = frame_count;
        while j > 0
            invariant
                0 <= j <= frame_count,
                free_list@.len() == frame_count - j,
                forall|k: int| 0 <= k < free_list@.len() ==> #[trigger] free_list@[k] == frame_count - 1 - k,
            decreases j,
        {
            j = j - 1;
            free_list.push(j);
        }
        let pool = BufferPool {
            frames,
            page_table: HashMap::new(),
            free_list,
            replacer: LruReplacer::new(frame_count),
            disk,
        };
        proof {
            let free = pool.free_list@;
            assert(free.no_duplicates());
            assert forall|f: FrameId| f < frame_count implies #[trigger] free.contains(f) by {
                assert(free[frame_count - 1 - f] == f);
            }
            assert(pool.pages() =~= pool.disk@);
        }
        pool
    }

    /// Number of pages in the database.
    pub fn page_count(&self) -> (r: Result<u64>)
        requires
            self.wf(),
        ensures
            r == Ok::<u64, Error>(self.pages().len() as u64),
            self.pages().len() <= u64::MAX,
    {
        self.disk.page_count()
    }

    /// The disk under the pool.
    pub fn disk(&self) -> (r: &DiskManager)
        ensures
            r@ == self.disk_view(),
    {
        &self.disk
    }

    /// How many frames hold no page.
    pub closed spec fn free_count(&self) -> nat {
        self.free_list@.len()
    }

    /// How many frames hold no page.
    pub fn free_frame_count(&self) -> (r: usize)
        ensures
            r == self.free_count(),
    {
        self.free_list.len()
    }

    /// Whether page `page_id` sits in a frame.
    pub fn is_cached(&self, page_id: PageId) -> (r: bool)
        ensures
            r == self.cached(page_id.0),
    {
        self.page_table.contains_key(&page_id.0)
    }

    /// Gives up the pool and hands back its disk; pages not flushed are
    /// dropped.
    pub fn into_disk(self) -> (r: DiskManager)
        ensures
            r@ == self.disk_view(),
    {
        self.disk
    }

    /// A frame that holds a page shows that page's current contents.
    pub proof fn lemma_frame_view(&self, f: int)
        requires
            self.wf(),
            0 <= f < self.frame_count(),
            self.frame_of(f) is Some,
        ensures
            self.frame_of(f).unwrap().0 < self.pages().len(),
            self.pages()[self.frame_of(f).unwrap().0 as int] == self.frame_page(f),
            self.cached(self.frame_of(f).unwrap().0),
            self.pin(self.frame_of(f).unwrap().0) == self.frame_pin(f),
    {
        assert(self.frames@[f].page_id is Some);
    }

    /// Puts `page`, the disk's copy of page `page_id`, into a frame, pinned
    /// once: a never used frame if there is one, else the least recently
    /// used unpinned frame, whose page goes back to disk first if it changed.
    fn install(&mut self, page_id: PageId, page: Page) -> (r: Result<FrameId>)
        requires
            old(self).wf(),
            !old(self).cached(page_id.0),
            page_id.0 < old(self).disk_view().len(),
            page@ == old(self).disk_view()[page_id.0 as int],
        ensures
            final(self).wf(),
            final(self).pages() == old(self).pages(),
            final(self).frame_count() == old(self).frame_count(),
            match r {
                Ok(f) => {
                    &&& f < old(self).frame_count()
                    &&& old(self).frame_pin(f as int) == 0
                    &&& final(self).frame_of(f as int) == Some(page_id)
                    &&& final(self).frame_page(f as int) == page@
                    &&& final(self).frame_pin(f as int) == 1
                    &&& final(self).same_frames_except(old(self), f as int)
                },
                Err(Error::BufferPoolFull) => {
                    &&& !old(self).has_free_frame()
                    &&& final(self).same_frames_except(old(self), -1)
                    &&& final(self).disk_view() == old(self).disk_view()
                },
                _ => false,
            },
    {
        let ghost old_pages = self.pages();
        let frame_id = match self.free_list.pop() {
            Some(f) => {
                proof {
                    let free = old(self).free_list@;
                    assert(free.last() == f);
                    assert(!self.free_list@.contains(f)) by {
                        if self.free_list@.contains(f) {
                            let k = choose|k: int| 0 <= k < self.free_list@.len() && self.free_list@[k] == f;
                            assert(free[k] == free[free.len() - 1]);
                        }
                    }
                    assert(free.contains(f));
                    assert(self.frames@[f as int].page_id is None);
                    assert(!self.replacer@.contains(f));
                    assert forall|g: FrameId| #[trigger] self.free_list@.contains(g) implies free.contains(g) && g != f by {
                        let k = choose|k: int| 0 <= k < self.free_list@.len() && self.free_list@[k] == g;
                        assert(free[k] == g);
                    }
                    assert forall|g: FrameId| free.contains(g) && g != f implies #[trigger] self.free_list@.contains(g) by {
                        let k = choose|k: int| 0 <= k < free.len() && free[k] == g;
                        assert(k != free.len() - 1);
                        assert(self.free_list@[k] == g);
                    }
                }
                f
            },
            None => {
                proof {
                    self.replacer.lemma_candidates_in_range();
                }
                match self.replacer.evict() {
                    Some(f) => {
                        proof {
                            let o = old(self).replacer@;
                            assert(o[o.len() - 1] == f);
                            assert(o.contains(f));
                            assert(self.frames@[f as int].page_id is Some);
                        }
                        let victim = match self.frames[f].page_id {
                            Some(v) => v,
                            None => {
                                assert(false);
                                return Err(Error::BufferPoolFull);
                            },
                        };
                        let ghost before_flush = self.disk@;
                        if self.frames[f].is_dirty {
                            // the page changed since it was read, so it goes back to disk
                            let _ = self.disk.write_page(victim, &self.frames[f].page);
                            assert(self.disk@ =~= before_flush.update(victim.0 as int, self.frames@[f as int].page@));
                        }
                        self.page_table.remove(&victim.0);
                        proof {
                            let o = old(self).replacer@;
                            assert forall|g: FrameId| #[trigger] self.replacer@.contains(g) implies o.contains(g) && g != f by {
                                let k = choose|k: int| 0 <= k < self.replacer@.len() && self.replacer@[k] == g;
                                assert(o[k] == g);
                            }
                            assert forall|g: FrameId| o.contains(g) && g != f implies #[trigger] self.replacer@.contains(g) by {
                                let k = choose|k: int| 0 <= k < o.len() && o[k] == g;
                                assert(k != o.len() - 1);
                                assert(self.replacer@[k] == g);
                            }
                        }
                        f
                    },
                    None => {
                        return Err(Error::BufferPoolFull);
                    },
                }
            },
        };
        let ghost mid = self.pages();
        self.frames.set(frame_id, Frame { page, page_id: Some(page_id), pin_count: 1, is_dirty: false });
        self.page_table.insert(page_id.0, frame_id);
        proof {
            let n = self.frames@.len();
            let table = self.page_table@;
            let free = self.free_list@;
            let disk = self.disk@;
            assert(self.replacer.wf());
            assert(forall|i: int| 0 <= i < disk.len() ==> (#[trigger] disk[i]).len() == 4096);
            assert(forall|pid: u64|
            #[trigger] table.contains_key(pid) ==> table[pid] < n && self.frames@[table[pid] as int].page_id
                == Some(PageId(pid)) && pid < disk.len());
            assert(forall|f: int|
            0 <= f < n && (#[trigger] self.frames@[f]).page_id is Some ==> {
                let p = self.frames@[f].page_id->0;
                &&& table.contains_key(p.0)
                &&& table[p.0] == f
                &&& p.0 < disk.len()
                &&& !self.frames@[f].is_dirty ==> self.frames@[f].page@ == disk[p.0 as int]
            });
            assert(free.no_duplicates());
            assert forall|g: FrameId| g < n && (#[trigger] self.frames@[g as int]).page_id is None implies free.contains(g) by {
                assert(g != frame_id);
                assert(old(self).frames@[g as int].page_id is None);
                assert(old(self).free_list@.contains(g));
            }
            assert forall|g: FrameId| g < n && free.contains(g) implies (#[trigger] self.frames@[g as int]).page_id is None by {
                assert(old(self).free_list@.contains(g));
                assert(g != frame_id);
            }
            assert(self.pages() =~= old_pages);
        }
        Ok(frame_id)
    }

    /// Pins page `page_id` in a frame, reading it from disk on a miss, and
    /// returns the frame.
    pub fn fetch_page(&mut self, page_id: PageId) -> (r: Result<FrameId>)
        requires
            old(self).wf(),
            old(self).pin(page_id.0) < u32::MAX,
        ensures
            final(self).wf(),
            final(self).pages() == old(self).pages(),
            final(self).frame_count() == old(self).frame_count(),
            match r {
                Ok(f) => {
                    &&& f < old(self).frame_count()
                    &&& page_id.0 < old(self).pages().len()
                    &&& final(self).frame_of(f as int) == Some(page_id)
                    &&& final(self).frame_page(f as int) == old(self).pages()[page_id.0 as int]
                    &&& final(self).frame_pin(f as int) == old(self).pin(page_id.0) + 1
                    &&& old(self).cached(page_id.0) ==> old(self).frame_of(f as int) == Some(
                        page_id,
                    )
                    &&& !old(self).cached(page_id.0) ==> old(self).frame_pin(f as int) == 0
                    &&& final(self).same_frames_except(old(self), f as int)
                },
                Err(Error::PageOutOfRange { requested, page_count }) => {
                    &&& page_id.0 >= old(self).pages().len()
                    &&& requested == page_id.0
                    &&& page_count == old(self).pages().len()
                    &&& final(self).same_frames_except(old(self), -1)
                },
                Err(Error::BufferPoolFull) => {
                    &&& page_id.0 < old(self).pages().len()
                    &&& !old(self).cached(page_id.0)
                    &&& !old(self).has_free_frame()
                    &&& final(self).same_frames_except(old(self), -1)
                },
                _ => false,
            },
    {
        // hit
        match self.page_table.get(&page_id.0) {
            Some(f) => {
                let frame_id = *f;
                let ghost before = self.replacer@;
                if !self.frames[frame_id].is_pinned() {
                    self.replacer.remove(frame_id);
                }
                let pin = self.frames[frame_id].pin_count;
                self.frames[frame_id].pin_count = pin + 1;
                proof {
                    let n = self.frames@.len();
                    let f = frame_id;
                    assert forall|g: FrameId|
                        g < n && #[trigger] self.replacer@.contains(g) implies g != f && before.contains(g) by {
                        if pin == 0 {
                            lemma_without_contains(before, f, g);
                        }
                    }
                    assert forall|g: FrameId|
                        g < n && g != f && before.contains(g) implies #[trigger] self.replacer@.contains(g) by {
                        if pin == 0 {
                            lemma_without_contains(before, f, g);
                        }
                    }
                    assert(self.pages() =~= old(self).pages());
                }
                return Ok(frame_id);
            },
            None => {},
        }
        // miss meaning first bring page from disk
        let page = match self.disk.read_page(page_id) {
            Ok(p) => p,
            Err(e) => return Err(e),
        };
        self.install(page_id, page)
    }

    /// Allocates a fresh zeroed page at the end of the disk and pins it in a
    /// frame. The disk grows even when no frame can be had.
    pub fn new_page(&mut self) -> (r: Result<(PageId, FrameId)>)
        requires
            old(self).wf(),
            old(self).pages().len() + 1 < usize::MAX,
            old(self).pages().len() + 1 <= u64::MAX,
        ensures
            final(self).wf(),
            final(self).pages() == old(self).pages().push(zero_page()),
            final(self).frame_count() == old(self).frame_count(),
            match r {
                Ok((page_id, f)) => {
                    &&& page_id.0 == old(self).pages().len()
                    &&& f < old(self).frame_count()
                    &&& old(self).frame_pin(f as int) == 0
                    &&& final(self).frame_of(f as int) == Some(page_id)
                    &&& final(self).frame_page(f as int) == zero_page()
                    &&& final(self).frame_pin(f as int) == 1
                    &&& final(self).same_frames_except(old(self), f as int)
                },
                Err(Error::BufferPoolFull) => {
                    &&& !old(self).has_free_frame()
                    &&& final(self).same_frames_except(old(self), -1)
                },
                _ => false,
            },
    {
        let page_id = match self.disk.allocate_page() {
            Ok(p) => p,
            Err(e) => return Err(e),
        };
        proof {
            assert(self.pages() =~= old(self).pages().push(zero_page()));
        }
        // a recycled frame still holds the old page's bytes, so overwrite them
        match self.install(page_id, Page::new()) {
            Ok(f) => Ok((page_id, f)),
            Err(e) => Err(e),
        }
    }

    /// The page in frame `frame_id`, for writing: the frame becomes dirty.
    pub fn page_mut(&mut self, frame_id: FrameId) -> (r: &mut Page)
        requires
            old(self).wf(),
            frame_id < old(self).frame_count(),
        ensures
            r@ == old(self).frame_page(frame_id as int),
            final(self).wf(),
            final(self).same_frames_except(old(self), -1),
            final(self).frame_page(frame_id as int) == final(r)@,
            forall|g: int|
                0 <= g < old(self).frame_count() && g != frame_id ==> #[trigger] final(self).frame_page(g) == old(self).frame_page(g),
            final(self).pages() == match old(self).frame_of(frame_id as int) {
                Some(p) => old(self).pages().update(p.0 as int, final(r)@),
                None => old(self).pages(),
            },
            final(self).disk_view() == old(self).disk_view(),
    {
        self.frames[frame_id].is_dirty = true;
        &mut self.frames[frame_id].page
    }

    /// Drops one pin of frame `frame_id`; an unpinned frame becomes the most
    /// recently used eviction candidate.
    pub fn unpin(&mut self, frame_id: FrameId) -> (r: Result<()>)
        requires
            old(self).wf(),
            frame_id < old(self).frame_count(),
        ensures
            final(self).wf(),
            final(self).pages() == old(self).pages(),
            final(self).disk_view() == old(self).disk_view(),
            final(self).frame_count() == old(self).frame_count(),
            forall|g: int|
                0 <= g < old(self).frame_count() ==> #[trigger] final(self).frame_of(g) == old(self).frame_of(g) && final(self).frame_page(g) == old(self).frame_page(g),
            forall|g: int|
                0 <= g < old(self).frame_count() && g != frame_id ==> #[trigger] final(self).frame_pin(g) == old(self).frame_pin(g),
            match r {
                Ok(()) => old(self).frame_pin(frame_id as int) > 0 && final(self).frame_pin(
                    frame_id as int,
                ) == old(self).frame_pin(frame_id as int) - 1,
                Err(Error::FrameNotPinned(x)) => x == frame_id && old(self).frame_pin(
                    frame_id as int,
                ) == 0 && final(self).frame_pin(frame_id as int) == 0,
                _ => false,
            },
    {
        if !self.frames[frame_id].is_pinned() {
            return Err(Error::FrameNotPinned(frame_id));
        }
        let ghost before = self.replacer@;
        let pin = self.frames[frame_id].pin_count;
        self.frames[frame_id].pin_count = pin - 1;
        if pin == 1 {
            self.replacer.insert(frame_id);
            proof {
                let f = frame_id;
                let n = self.frames@.len();
                assert forall|g: FrameId|
                    g < n && #[trigger] self.replacer@.contains(g) implies g == f || before.contains(g) by {
                    lemma_touched_contains(before, f, g);
                }
                assert forall|g: FrameId|
                    g < n && (g == f || before.contains(g)) implies #[trigger] self.replacer@.contains(g) by {
                    lemma_touched_contains(before, f, g);
                }
            }
        }
        proof {
            assert(self.pages() =~= old(self).pages());
        }
        Ok(())
    }

    /// Writes frame `frame_id` back to disk if it holds a changed page.
    fn flush_frame(&mut self, frame_id: FrameId) -> (r: Result<()>)
        requires
            old(self).wf(),
            frame_id < old(self).frame_count(),
        ensures
            r is Ok,
            final(self).wf(),
            final(self).pages() == old(self).pages(),
            final(self).same_frames_except(old(self), -1),
            forall|g: int|
                0 <= g < old(self).frame_count() ==> #[trigger] final(self).frame_page(g) == old(self).frame_page(g),
            final(self).frame_of(frame_id as int) is Some ==> final(self).frame_clean(frame_id as int),
            forall|g: int|
                0 <= g < old(self).frame_count() && old(self).frame_clean(g) ==> #[trigger] final(self).frame_clean(g),
            final(self).disk_view() == match old(self).frame_of(frame_id as int) {
                Some(p) => old(self).disk_view().update(p.0 as int, old(self).pages()[p.0 as int]),
                None => old(self).disk_view(),
            },
    {
        let page_id = match self.frames[frame_id].page_id {
            Some(p) => p,
            None => return Ok(()),
        };
        if !self.frames[frame_id].is_dirty {
            return Ok(());
        }
        // writes go to the disk image; the file itself follows on flush
        let ghost before = self.disk@;
        let _ = self.disk.write_page(page_id, &self.frames[frame_id].page);
        assert(self.disk@ =~= before.update(page_id.0 as int, self.frames@[frame_id as int].page@));
        self.frames[frame_id].is_dirty = false;
        proof {
            assert(self.pages() =~= old(self).pages());
        }
        Ok(())
    }

    /// Whether frame `f` holds nothing the disk does not have.
    pub closed spec fn frame_clean(&self, f: int) -> bool {
        !self.frames@[f].is_dirty
    }

    /// Writes page `page_id` back to disk if it is cached and changed.
    pub fn flush_page(&mut self, page_id: PageId) -> (r: Result<()>)
        requires
            old(self).wf(),
        ensures
            r is Ok,
            final(self).wf(),
            final(self).pages() == old(self).pages(),
            final(self).same_frames_except(old(self), -1),
            forall|g: int|
                0 <= g < old(self).frame_count() ==> #[trigger] final(self).frame_page(g) == old(self).frame_page(g),
            final(self).disk_view().len() == old(self).disk_view().len(),
            page_id.0 < old(self).disk_view().len() ==> final(self).disk_view()[page_id.0 as int]
                == old(self).pages()[page_id.0 as int],
            forall|i: int|
                0 <= i < old(self).disk_view().len() && i != page_id.0 ==> #[trigger] final(self).disk_view()[i]
                    == old(self).disk_view()[i],
    {
        let frame_id = match self.page_table.get(&page_id.0) {
            Some(f) => *f,
            None => return Ok(()),
        };
        self.flush_frame(frame_id)
    }

    /// Writes every changed page back to disk; the disk then holds the
    /// current contents of every page.
    pub fn flush_all(&mut self) -> (r: Result<()>)
        requires
            old(self).wf(),
        ensures
            r is Ok,
            final(self).wf(),
            final(self).pages() == old(self).pages(),
            final(self).disk_view() == old(self).pages(),
            final(self).same_frames_except(old(self), -1),
            forall|g: int|
                0 <= g < old(self).frame_count() ==> #[trigger] final(self).frame_page(g) == old(self).frame_page(g),
    {
        let mut frame_id: usize = 0;
        while frame_id < self.frames.len()
            invariant
                self.wf(),
                0 <= frame_id <= self.frame_count(),
                self.pages() == old(self).pages(),
                self.same_frames_except(old(self), -1),
                forall|g: int|
                    0 <= g < old(self).frame_count() ==> #[trigger] self.frame_page(g) == old(self).frame_page(g),
                forall|g: int|
                    0 <= g < frame_id && self.frame_of(g) is Some ==> #[trigger] self.frame_clean(g),
            decreases self.frame_count() - frame_id,
        {
            let _ = self.flush_frame(frame_id);
            frame_id = frame_id + 1;
        }
        proof {
            assert forall|i: int| 0 <= i < self.disk@.len() implies #[trigger] self.disk@[i]
                == self.pages()[i] by {
                if self.page_table@.contains_key(i as u64) {
                    let f = self.page_table@[i as u64] as int;
                    assert(self.frame_of(f) is Some);
                    assert(self.frame_clean(f));
                }
            }
            assert(self.disk@ =~= self.pages());
        }
        Ok(())
    }

    /// The page in frame `frame_id`.
    pub fn page(&self, frame_id: FrameId) -> (r: &Page)
        requires
            frame_id < self.frame_count(),
        ensures
            r@ == self.frame_page(frame_id as int),
    {
        &self.frames[frame_id].page
    }
}

} // verus!
