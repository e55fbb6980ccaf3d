use mnemosyne::buffer::BufferPool;
use mnemosyne::disk::DiskManager;
use mnemosyne::error::Error;
use mnemosyne::page::PageId;

fn fresh_pool(frames: usize) -> BufferPool {
    BufferPool::open(DiskManager::new(), frames)
}

#[test]
fn new_page_hands_out_ascending_ids() {
    let mut pool = fresh_pool(4);

    let (first, _) = pool.new_page().unwrap();
    let (second, _) = pool.new_page().unwrap();

    assert_eq!(first, PageId(0));
    assert_eq!(second, PageId(1));
}

#[test]
fn a_written_page_reads_back_through_the_pool() {
    let mut pool = fresh_pool(4);

    let (page_id, frame_id) = pool.new_page().unwrap();
    pool.page_mut(frame_id).write_u64(0, 0xCAFE);
    pool.unpin(frame_id).unwrap();

    let again = pool.fetch_page(page_id).unwrap();
    assert_eq!(pool.page(again).read_u64(0), 0xCAFE);
}

#[test]
fn fetching_a_cached_page_reuses_its_frame() {
    let mut pool = fresh_pool(4);

    let (page_id, frame_id) = pool.new_page().unwrap();
    pool.unpin(frame_id).unwrap();

    assert_eq!(pool.fetch_page(page_id).unwrap(), frame_id);
    assert_eq!(pool.free_frame_count(), 3);
}

#[test]
fn a_dirty_page_survives_eviction() {
    let mut pool = fresh_pool(2);

    let (first, frame_id) = pool.new_page().unwrap();
    pool.page_mut(frame_id).write_u64(0, 42);
    pool.unpin(frame_id).unwrap();

    for _ in 0..2 {
        let (_, frame_id) = pool.new_page().unwrap();
        pool.unpin(frame_id).unwrap();
    }

    assert!(!pool.is_cached(first));

    let frame_id = pool.fetch_page(first).unwrap();
    assert_eq!(pool.page(frame_id).read_u64(0), 42);
}

#[test]
fn a_new_page_never_inherits_the_old_frames_bytes() {
    let mut pool = fresh_pool(1);

    let (_, frame_id) = pool.new_page().unwrap();
    pool.page_mut(frame_id).write_u64(0, 0xFFFF);
    pool.unpin(frame_id).unwrap();

    let (_, frame_id) = pool.new_page().unwrap();
    assert_eq!(pool.page(frame_id).read_u64(0), 0);
}

#[test]
fn a_fully_pinned_pool_cannot_take_another_page() {
    let mut pool = fresh_pool(2);

    pool.new_page().unwrap();
    pool.new_page().unwrap();

    assert!(matches!(pool.new_page(), Err(Error::BufferPoolFull)));
}

#[test]
fn unpinning_lets_a_frame_be_reused() {
    let mut pool = fresh_pool(1);

    let (_, frame_id) = pool.new_page().unwrap();
    assert!(matches!(pool.new_page(), Err(Error::BufferPoolFull)));

    pool.unpin(frame_id).unwrap();
    assert!(pool.new_page().is_ok());
}

#[test]
fn a_page_pinned_twice_needs_two_unpins() {
    let mut pool = fresh_pool(1);

    let (page_id, frame_id) = pool.new_page().unwrap();
    assert_eq!(pool.fetch_page(page_id).unwrap(), frame_id);

    pool.unpin(frame_id).unwrap();
    assert!(matches!(pool.new_page(), Err(Error::BufferPoolFull)));

    pool.unpin(frame_id).unwrap();
    assert!(pool.new_page().is_ok());
}

#[test]
fn unpinning_twice_is_an_error() {
    let mut pool = fresh_pool(2);

    let (_, frame_id) = pool.new_page().unwrap();
    pool.unpin(frame_id).unwrap();

    assert!(matches!(
        pool.unpin(frame_id),
        Err(Error::FrameNotPinned(_))
    ));
}

#[test]
fn flush_all_puts_everything_on_disk() {
    let page_id;
    let disk = {
        let mut pool = fresh_pool(4);
        let (id, frame_id) = pool.new_page().unwrap();
        pool.page_mut(frame_id).write_u64(0, 0xDEAD_BEEF);
        pool.unpin(frame_id).unwrap();
        pool.flush_all().unwrap();
        page_id = id;
        pool.into_disk()
    };

    let mut pool = BufferPool::open(disk, 4);
    let frame_id = pool.fetch_page(page_id).unwrap();
    assert_eq!(pool.page(frame_id).read_u64(0), 0xDEAD_BEEF);
}

#[test]
fn dropping_the_pool_without_flushing_loses_the_change() {
    let page_id;
    let disk = {
        let mut pool = fresh_pool(4);
        let (id, frame_id) = pool.new_page().unwrap();
        pool.page_mut(frame_id).write_u64(0, 7);
        pool.unpin(frame_id).unwrap();
        page_id = id;
        pool.into_disk()
    };

    let mut pool = BufferPool::open(disk, 4);
    let frame_id = pool.fetch_page(page_id).unwrap();
    assert_eq!(pool.page(frame_id).read_u64(0), 0);
}

#[test]
fn fetching_past_the_end_is_out_of_range() {
    let mut pool = fresh_pool(2);
    pool.new_page().unwrap();

    assert!(matches!(
        pool.fetch_page(PageId(3)),
        Err(Error::PageOutOfRange { requested: 3, page_count: 1 })
    ));
    assert_eq!(pool.page_count().unwrap(), 1);
}

#[test]
fn flushing_one_page_writes_only_that_page() {
    let mut pool = fresh_pool(4);
    let (a, fa) = pool.new_page().unwrap();
    let (b, fb) = pool.new_page().unwrap();
    pool.page_mut(fa).write_u64(0, 11);
    pool.page_mut(fb).write_u64(0, 22);
    pool.flush_page(a).unwrap();

    assert_eq!(pool.disk().read_page(a).unwrap().read_u64(0), 11);
    assert_eq!(pool.disk().read_page(b).unwrap().read_u64(0), 0);
}
