use vstd::prelude::*;

verus! {

/// Every way an operation of the engine can fail.
#[derive(Debug)]
pub enum Error {
    /// A record of `size` bytes (slot entry included) does not fit in `free` bytes.
    PageFull { size: usize, free: usize },
    /// The slot was never handed out.
    NoSuchSlot(u16),
    /// The slot holds a tombstone.
    SlotDeleted(u16),
    /// The page lies past the end of the file.
    PageOutOfRange { requested: u64, page_count: u64 },
    /// Every frame of the buffer pool is pinned.
    BufferPoolFull,
    /// The frame was unpinned more often than it was pinned.
    FrameNotPinned(usize),
    /// Page 0 of an existing file is not a meta page of ours.
    BadMetaPage,
    /// Another transaction wrote the key after this one began.
    WriteConflict,
    /// A page that the structure points at does not have the layout it
    /// should have.
    CorruptPage(u64),
}

pub type Result<T> = core::result::Result<T, Error>;

} // verus!
