//! Page 0: magic, format version, the B+tree root, the heap tail and the
//! next transaction timestamp.
use crate::page::{group_bytes, le64, le_u32, le_u64, lemma_page_len, splice, Page, PageId};
use vstd::prelude::*;

verus! {

broadcast use group_bytes, lemma_page_len;

/// The meta page is always page 0.
pub const META_PAGE: u64 = 0;

/// Spells "MNMS", so a file that is not ours fails on open instead of later.
pub const META_MAGIC: u32 = 0x4D4E_4D53;

pub const META_VERSION: u32 = 1;

pub const OFF_MAGIC: usize = 0;  // u32

pub const OFF_VERSION: usize = 4;  // u32

pub const OFF_ROOT: usize = 8;  // u64, B+tree root page id

pub const OFF_FREE_LIST: usize = 16;  // u64, head of the free page list, unused so far

pub const OFF_HEAP_TAIL: usize = 24;  // u64, last heap page, 0 for none

pub const OFF_NEXT_TIMESTAMP: usize = 32;  // u64, first timestamp not handed out yet

/// Bytes of the meta page that carry fields.
pub const META_SIZE: usize = 40;

/// The timestamp that a fresh database starts counting from.
pub const FIRST_TIMESTAMP: u64 = 1;

pub open spec fn meta_magic(s: Seq<u8>) -> u32 {
    le_u32(s, OFF_MAGIC as int)
}

pub open spec fn meta_version(s: Seq<u8>) -> u32 {
    le_u32(s, OFF_VERSION as int)
}

pub open spec fn meta_root(s: Seq<u8>) -> u64 {
    le_u64(s, OFF_ROOT as int)
}

pub open spec fn meta_free_list(s: Seq<u8>) -> u64 {
    le_u64(s, OFF_FREE_LIST as int)
}

pub open spec fn meta_heap_tail(s: Seq<u8>) -> u64 {
    le_u64(s, OFF_HEAP_TAIL as int)
}

pub open spec fn meta_next_timestamp(s: Seq<u8>) -> u64 {
    le_u64(s, OFF_NEXT_TIMESTAMP as int)
}

/// Whether the bytes carry our magic number and format version.
pub open spec fn meta_valid(s: Seq<u8>) -> bool {
    meta_magic(s) == META_MAGIC && meta_version(s) == META_VERSION
}

/// The heap tail as an optional page; page 0 is the meta page, so 0 means none.
pub open spec fn heap_tail_of(s: Seq<u8>) -> Option<PageId> {
    if meta_heap_tail(s) == 0 {
        None
    } else {
        Some(PageId(meta_heap_tail(s)))
    }
}

impl Page {
    /// Lays out a fresh meta page pointing at `root`, with no heap yet and
    /// timestamps starting at `FIRST_TIMESTAMP`.
    pub fn init_meta(&mut self, root: PageId)
        ensures
            meta_valid(final(self)@),
            meta_root(final(self)@) == root.0,
            meta_free_list(final(self)@) == 0,
            meta_heap_tail(final(self)@) == 0,
            meta_next_timestamp(final(self)@) == FIRST_TIMESTAMP,
            final(self)@.subrange(META_SIZE as int, 4096) == old(self)@.subrange(
                META_SIZE as int,
                4096,
            ),
    {
        self.write_u32(OFF_MAGIC, META_MAGIC);
        self.write_u32(OFF_VERSION, META_VERSION);
        self.write_u64(OFF_FREE_LIST, 0);
        self.write_u64(OFF_HEAP_TAIL, 0);
        self.write_u64(OFF_NEXT_TIMESTAMP, FIRST_TIMESTAMP);
        self.set_root_page_id(root);
        assert(self@.subrange(META_SIZE as int, 4096) =~= old(self)@.subrange(
            META_SIZE as int,
            4096,
        ));
    }

    pub fn is_meta(&self) -> (r: bool)
        ensures
            r == meta_valid(self@),
    {
        self.read_u32(OFF_MAGIC) == META_MAGIC && self.read_u32(OFF_VERSION) == META_VERSION
    }

    pub fn root_page_id(&self) -> (r: PageId)
        ensures
            r.0 == meta_root(self@),
    {
        PageId(self.read_u64(OFF_ROOT))
    }

    pub fn set_root_page_id(&mut self, root: PageId)
        ensures
            final(self)@ == splice(old(self)@, OFF_ROOT as int, le64(root.0)),
            meta_root(final(self)@) == root.0,
            meta_magic(final(self)@) == meta_magic(old(self)@),
            meta_version(final(self)@) == meta_version(old(self)@),
            meta_free_list(final(self)@) == meta_free_list(old(self)@),
            meta_heap_tail(final(self)@) == meta_heap_tail(old(self)@),
            meta_next_timestamp(final(self)@) == meta_next_timestamp(old(self)@),
    {
        self.write_u64(OFF_ROOT, root.0);
    }

    pub fn heap_tail(&self) -> (r: Option<PageId>)
        ensures
            r == heap_tail_of(self@),
    {
        match self.read_u64(OFF_HEAP_TAIL) {
            0 => None,
            raw => Some(PageId(raw)),
        }
    }

    pub fn set_heap_tail(&mut self, tail: PageId)
        ensures
            final(self)@ == splice(old(self)@, OFF_HEAP_TAIL as int, le64(tail.0)),
            meta_heap_tail(final(self)@) == tail.0,
            meta_magic(final(self)@) == meta_magic(old(self)@),
            meta_version(final(self)@) == meta_version(old(self)@),
            meta_root(final(self)@) == meta_root(old(self)@),
            meta_free_list(final(self)@) == meta_free_list(old(self)@),
            meta_next_timestamp(final(self)@) == meta_next_timestamp(old(self)@),
    {
        self.write_u64(OFF_HEAP_TAIL, tail.0);
    }

    pub fn next_timestamp(&self) -> (r: u64)
        ensures
            r == meta_next_timestamp(self@),
    {
        self.read_u64(OFF_NEXT_TIMESTAMP)
    }

    pub fn set_next_timestamp(&mut self, timestamp: u64)
        ensures
            final(self)@ == splice(old(self)@, OFF_NEXT_TIMESTAMP as int, le64(timestamp)),
            meta_next_timestamp(final(self)@) == timestamp,
            meta_magic(final(self)@) == meta_magic(old(self)@),
            meta_version(final(self)@) == meta_version(old(self)@),
            meta_root(final(self)@) == meta_root(old(self)@),
            meta_free_list(final(self)@) == meta_free_list(old(self)@),
            meta_heap_tail(final(self)@) == meta_heap_tail(old(self)@),
    {
        self.write_u64(OFF_NEXT_TIMESTAMP, timestamp);
    }
}

} // verus!
