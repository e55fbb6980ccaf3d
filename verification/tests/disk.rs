use mnemosyne::disk::DiskManager;
use mnemosyne::error::Error;
use mnemosyne::page::{Page, PageId};

// A page whose first 8 bytes identify it, so a test can tell pages apart.
fn page_marked(marker: u64) -> Page {
    let mut page = Page::new();
    page.write_u64(0, marker);
    page
}

// What a new process gets when it reads the file back: the same pages.
fn reopen(disk: &DiskManager) -> DiskManager {
    let count = disk.page_count().unwrap();
    let pages: Vec<Page> = (0..count)
        .map(|id| disk.read_page(PageId(id)).unwrap())
        .collect();
    DiskManager::from_pages(pages)
}

#[test]
fn allocate_page_starts_at_zero() {
    let mut disk = DiskManager::new();

    assert_eq!(disk.allocate_page().unwrap(), PageId(0));
}

#[test]
fn allocate_page_never_hands_out_the_same_id_twice() {
    let mut disk = DiskManager::new();

    let ids: Vec<PageId> = (0..5).map(|_| disk.allocate_page().unwrap()).collect();

    assert_eq!(
        ids,
        vec![PageId(0), PageId(1), PageId(2), PageId(3), PageId(4)]
    );
}

#[test]
fn allocate_page_grows_the_file() {
    let mut disk = DiskManager::new();

    assert_eq!(disk.page_count().unwrap(), 0);
    disk.allocate_page().unwrap();
    assert_eq!(disk.page_count().unwrap(), 1);
    disk.allocate_page().unwrap();
    assert_eq!(disk.page_count().unwrap(), 2);
}

#[test]
fn each_page_round_trips_its_own_content() {
    // If pages were mixed up, every page would still round trip when they
    // all hold the same bytes -- only distinct content catches it.
    let mut disk = DiskManager::new();

    for marker in 0..4u64 {
        let id = disk.allocate_page().unwrap();
        disk.write_page(id, &page_marked(marker + 100)).unwrap();
    }

    for marker in 0..4u64 {
        let page = disk.read_page(PageId(marker)).unwrap();
        assert_eq!(
            page.read_u64(0),
            marker + 100,
            "page {marker} came back wrong"
        );
    }
}

#[test]
fn data_survives_reopening_the_file() {
    // The whole point of a storage engine: the bytes outlive the process.
    let mut disk = DiskManager::new();
    let id = disk.allocate_page().unwrap();
    disk.write_page(id, &page_marked(0xDEAD_BEEF)).unwrap();

    let disk = reopen(&disk);
    assert_eq!(disk.page_count().unwrap(), 1);
    assert_eq!(disk.read_page(PageId(0)).unwrap().read_u64(0), 0xDEAD_BEEF);
}

#[test]
fn writing_past_the_end_leaves_a_hole_of_zeros() {
    let mut disk = DiskManager::new();

    disk.write_page(PageId(5), &page_marked(42)).unwrap();

    // the file now claims 6 pages, even though 0..4 were never written
    assert_eq!(disk.page_count().unwrap(), 6);
    assert_eq!(disk.read_page(PageId(2)).unwrap().read_u64(0), 0);
    assert_eq!(disk.read_page(PageId(5)).unwrap().read_u64(0), 42);
}

#[test]
fn read_page_beyond_file_returns_page_out_of_range() {
    let mut disk = DiskManager::new();
    assert_eq!(disk.page_count().unwrap(), 0);
    assert!(matches!(
        disk.read_page(PageId(0)),
        Err(Error::PageOutOfRange {
            requested: 0,
            page_count: 0
        })
    ));

    let page = Page::new();
    disk.write_page(PageId(0), &page).unwrap();
    assert_eq!(disk.page_count().unwrap(), 1);
    assert!(disk.read_page(PageId(0)).is_ok());
    assert!(matches!(
        disk.read_page(PageId(1)),
        Err(Error::PageOutOfRange {
            requested: 1,
            page_count: 1
        })
    ));
}

#[test]
fn rewriting_a_page_keeps_only_the_last_write() {
    let mut disk = DiskManager::new();
    disk.write_page(PageId(1), &page_marked(1)).unwrap();
    disk.write_page(PageId(0), &page_marked(5)).unwrap();
    disk.write_page(PageId(1), &page_marked(2)).unwrap();

    assert_eq!(disk.page_count().unwrap(), 2);
    assert_eq!(disk.read_page(PageId(0)).unwrap().read_u64(0), 5);
    assert_eq!(disk.read_page(PageId(1)).unwrap().read_u64(0), 2);
}
