use mnemosyne::btree::node::split_point;
use mnemosyne::btree::BTree;
use mnemosyne::disk::DiskManager;
use mnemosyne::error::Error;
use mnemosyne::page::{Page, PageId, RecordId};

const FRAMES: usize = 8;

fn fresh_tree(frames: usize) -> BTree {
    BTree::open(DiskManager::new(), frames).unwrap()
}

// the same file opened again, with whatever reached the disk
fn reopen(tree: BTree, frames: usize) -> Result<BTree, Error> {
    BTree::open(tree.pool.into_disk(), frames)
}

fn rid(page: u64, slot: u16) -> RecordId {
    RecordId {
        page: PageId(page),
        slot,
    }
}

// how many entries the root leaf is holding
fn root_slot_count(tree: &mut BTree) -> u16 {
    let root = tree.root().unwrap();
    let frame = tree.pool.fetch_page(root).unwrap();
    let count = tree.pool.page(frame).slot_count();
    tree.pool.unpin(frame).unwrap();
    count
}

#[test]
fn a_fresh_file_gets_a_meta_page_and_an_empty_root_leaf() {
    let mut tree = fresh_tree(FRAMES);

    // meta is page 0, so the first page the tree can use is 1
    assert_eq!(tree.root().unwrap(), PageId(1));

    let frame = tree.pool.fetch_page(PageId(1)).unwrap();
    let root = tree.pool.page(frame);
    assert!(root.is_leaf());
    assert_eq!(root.slot_count(), 0);
    assert_eq!(root.next_leaf(), None);
    tree.pool.unpin(frame).unwrap();
}

#[test]
fn opening_a_fresh_file_writes_both_pages_to_disk() {
    // open flushes, so the two pages must be on disk before it returns
    let tree = fresh_tree(FRAMES);

    let disk = tree.pool.into_disk();
    assert_eq!(disk.page_count().unwrap(), 2);
    assert!(disk.read_page(PageId(0)).unwrap().is_meta());
    assert!(disk.read_page(PageId(1)).unwrap().is_leaf());
}

#[test]
fn reopening_finds_the_same_root() {
    let mut tree = fresh_tree(FRAMES);
    assert_eq!(tree.root().unwrap(), PageId(1));

    // the second open must take the existing path, not bootstrap again
    let mut tree = reopen(tree, FRAMES).unwrap();
    assert_eq!(tree.root().unwrap(), PageId(1));
    assert_eq!(tree.pool.page_count().unwrap(), 2);
}

#[test]
fn a_new_root_survives_a_reopen() {
    // what a root split does: point the meta page somewhere else
    let mut tree = fresh_tree(FRAMES);
    tree.set_root(PageId(7)).unwrap();
    tree.pool.flush_all().unwrap();

    let mut tree = reopen(tree, FRAMES).unwrap();
    assert_eq!(tree.root().unwrap(), PageId(7));
}

#[test]
fn a_file_that_is_not_a_database_is_rejected() {
    // one page of junk, so page_count is not 0 and the magic check runs
    let junk = Page::from_bytes([0xABu8; mnemosyne::page::PAGE_SIZE]);
    let disk = DiskManager::from_pages(vec![junk]);

    assert!(matches!(
        BTree::open(disk, FRAMES),
        Err(Error::BadMetaPage)
    ));
}

#[test]
fn open_leaves_no_frame_pinned() {
    // a pin leak would only show up much later, as a full pool
    let mut tree = fresh_tree(2);

    // both frames hold open's pages, so allocating two more forces an
    // eviction each, which is only possible if open unpinned them
    for _ in 0..2 {
        let (_, frame) = tree.pool.new_page().unwrap();
        tree.pool.unpin(frame).unwrap();
    }
}

#[test]
fn a_key_comes_back_after_being_inserted() {
    let mut tree = fresh_tree(FRAMES);

    tree.insert(b"apple", rid(57, 3)).unwrap();

    assert_eq!(tree.lookup(b"apple").unwrap(), Some(rid(57, 3)));
}

#[test]
fn a_key_that_was_never_inserted_is_none() {
    let mut tree = fresh_tree(FRAMES);

    // empty tree, and a tree holding a neighbour on either side
    assert_eq!(tree.lookup(b"nothing").unwrap(), None);

    tree.insert(b"b", rid(1, 0)).unwrap();
    assert_eq!(tree.lookup(b"a").unwrap(), None);
    assert_eq!(tree.lookup(b"c").unwrap(), None);
}

#[test]
fn keys_inserted_out_of_order_all_come_back() {
    // the leaf must end up sorted however they arrive, or search misses
    let mut tree = fresh_tree(FRAMES);

    let keys: [&[u8]; 7] = [b"m", b"c", b"t", b"a", b"z", b"f", b"q"];
    for (i, key) in keys.iter().enumerate() {
        tree.insert(key, rid(9, i as u16)).unwrap();
    }

    for (i, key) in keys.iter().enumerate() {
        assert_eq!(tree.lookup(key).unwrap(), Some(rid(9, i as u16)));
    }
    assert_eq!(root_slot_count(&mut tree), 7);
}

#[test]
fn inserting_the_same_key_twice_overwrites_it() {
    let mut tree = fresh_tree(FRAMES);

    tree.insert(b"key", rid(1, 1)).unwrap();
    tree.insert(b"key", rid(2, 2)).unwrap();

    assert_eq!(tree.lookup(b"key").unwrap(), Some(rid(2, 2)));
    // an overwrite is an edit, not a second entry
    assert_eq!(root_slot_count(&mut tree), 1);
}

#[test]
fn an_overwrite_leaves_its_neighbours_alone() {
    // the rewrite is 10 bytes inside one entry, so nothing else can move
    let mut tree = fresh_tree(FRAMES);

    tree.insert(b"a", rid(1, 0)).unwrap();
    tree.insert(b"b", rid(2, 0)).unwrap();
    tree.insert(b"c", rid(3, 0)).unwrap();

    tree.insert(b"b", rid(99, 9)).unwrap();

    assert_eq!(tree.lookup(b"a").unwrap(), Some(rid(1, 0)));
    assert_eq!(tree.lookup(b"b").unwrap(), Some(rid(99, 9)));
    assert_eq!(tree.lookup(b"c").unwrap(), Some(rid(3, 0)));
    assert_eq!(root_slot_count(&mut tree), 3);
}

#[test]
fn inserted_keys_survive_a_reopen() {
    let mut tree = fresh_tree(FRAMES);
    tree.insert(b"persisted", rid(4, 2)).unwrap();
    tree.pool.flush_all().unwrap();

    let mut tree = reopen(tree, FRAMES).unwrap();
    assert_eq!(tree.lookup(b"persisted").unwrap(), Some(rid(4, 2)));
}

#[test]
fn insert_leaves_no_frame_pinned() {
    let mut tree = fresh_tree(3);

    // more inserts than frames, so a leaked pin per insert fills the pool
    for i in 0..20u16 {
        tree.insert(format!("key{i:03}").as_bytes(), rid(1, i))
            .unwrap();
    }

    assert_eq!(tree.lookup(b"key019").unwrap(), Some(rid(1, 19)));
}

// the leaf that holds the smallest keys, found by descending on an empty key
fn leftmost_leaf(tree: &mut BTree) -> PageId {
    let mut page_id = tree.root().unwrap();
    loop {
        let frame = tree.pool.fetch_page(page_id).unwrap();
        let page = tree.pool.page(frame);
        if page.is_leaf() {
            tree.pool.unpin(frame).unwrap();
            return page_id;
        }
        let child = page.child_for_key(b"").unwrap();
        tree.pool.unpin(frame).unwrap();
        page_id = child;
    }
}

fn key_of(i: u16) -> Vec<u8> {
    format!("{i:04}").into_bytes()
}

#[test]
fn the_tree_grows_past_a_single_page() {
    let mut tree = fresh_tree(FRAMES);

    for i in 0..1000u16 {
        tree.insert(&key_of(i), rid(1, i)).unwrap();
    }

    // the root started life as a leaf, so an internal root proves it split
    let root = tree.root().unwrap();
    let frame = tree.pool.fetch_page(root).unwrap();
    assert!(tree.pool.page(frame).is_internal());
    tree.pool.unpin(frame).unwrap();

    assert!(root != PageId(1), "the root pointer never moved");
    assert!(tree.pool.page_count().unwrap() > 2);

    for i in 0..1000u16 {
        assert_eq!(tree.lookup(&key_of(i)).unwrap(), Some(rid(1, i)));
    }
}

#[test]
fn scrambled_inserts_are_all_findable_after_splits() {
    // ascending keys always split the same way, this exercises the others
    let mut tree = fresh_tree(FRAMES);

    let mut order: Vec<u16> = (0..800).collect();
    let mut seed = 0x2545_F491u32;
    for i in (1..order.len()).rev() {
        seed = seed.wrapping_mul(1_664_525).wrapping_add(1_013_904_223);
        order.swap(i, seed as usize % (i + 1));
    }

    for &i in &order {
        tree.insert(&key_of(i), rid(1, i)).unwrap();
    }

    for i in 0..800u16 {
        assert_eq!(tree.lookup(&key_of(i)).unwrap(), Some(rid(1, i)));
    }
    assert_eq!(tree.lookup(b"9999").unwrap(), None);
}

#[test]
fn the_leaf_chain_holds_every_key_in_order() {
    // walking next_leaf must visit every key exactly once, in sorted order
    let mut tree = fresh_tree(FRAMES);

    for i in 0..600u16 {
        tree.insert(&key_of(i), rid(1, i)).unwrap();
    }

    let mut seen: Vec<Vec<u8>> = Vec::new();
    let mut leaf = Some(leftmost_leaf(&mut tree));
    let mut leaves = 0;

    while let Some(page_id) = leaf {
        let frame = tree.pool.fetch_page(page_id).unwrap();
        let page = tree.pool.page(frame);
        for slot in 0..page.slot_count() {
            seen.push(page.leaf_key(slot).unwrap().to_vec());
        }
        leaf = page.next_leaf();
        tree.pool.unpin(frame).unwrap();
        leaves += 1;
    }

    assert!(leaves > 1, "expected several leaves, got {leaves}");
    assert_eq!(seen.len(), 600);
    let expected: Vec<Vec<u8>> = (0..600u16).map(key_of).collect();
    assert_eq!(seen, expected);
}

#[test]
fn a_split_tree_survives_a_reopen() {
    let mut tree = fresh_tree(FRAMES);
    for i in 0..500u16 {
        tree.insert(&key_of(i), rid(1, i)).unwrap();
    }
    tree.pool.flush_all().unwrap();

    let mut tree = reopen(tree, FRAMES).unwrap();
    for i in 0..500u16 {
        assert_eq!(tree.lookup(&key_of(i)).unwrap(), Some(rid(1, i)));
    }
}

#[test]
fn overwriting_after_a_split_finds_the_right_leaf() {
    let mut tree = fresh_tree(FRAMES);

    for i in 0..500u16 {
        tree.insert(&key_of(i), rid(1, i)).unwrap();
    }
    // a key in the middle, so the descent has to pick a child correctly
    tree.insert(&key_of(250), rid(99, 9)).unwrap();

    assert_eq!(tree.lookup(&key_of(250)).unwrap(), Some(rid(99, 9)));
    assert_eq!(tree.lookup(&key_of(249)).unwrap(), Some(rid(1, 249)));
    assert_eq!(tree.lookup(&key_of(251)).unwrap(), Some(rid(1, 251)));
}

#[test]
fn a_deleted_key_is_gone_and_its_neighbours_stay() {
    let mut tree = fresh_tree(FRAMES);
    tree.insert(b"a", rid(1, 0)).unwrap();
    tree.insert(b"b", rid(2, 0)).unwrap();
    tree.insert(b"c", rid(3, 0)).unwrap();

    assert!(tree.delete(b"b").unwrap());
    assert!(!tree.delete(b"b").unwrap());

    assert_eq!(tree.lookup(b"a").unwrap(), Some(rid(1, 0)));
    assert_eq!(tree.lookup(b"b").unwrap(), None);
    assert_eq!(tree.lookup(b"c").unwrap(), Some(rid(3, 0)));
}

#[test]
fn deleting_a_key_that_was_never_there_is_false() {
    let mut tree = fresh_tree(FRAMES);
    assert!(!tree.delete(b"ghost").unwrap());
    tree.insert(b"real", rid(1, 1)).unwrap();
    assert!(!tree.delete(b"ghost").unwrap());
}

#[test]
fn deleting_most_keys_of_a_split_tree_merges_and_keeps_the_rest() {
    let mut tree = fresh_tree(FRAMES);
    for i in 0..800u16 {
        tree.insert(&key_of(i), rid(1, i)).unwrap();
    }
    for i in 0..800u16 {
        if i % 10 != 0 {
            assert!(tree.delete(&key_of(i)).unwrap());
        }
    }

    for i in 0..800u16 {
        let expected = if i % 10 == 0 { Some(rid(1, i)) } else { None };
        assert_eq!(tree.lookup(&key_of(i)).unwrap(), expected);
    }
    let all = tree.scan(b"", b"\xff").unwrap();
    let keys: Vec<Vec<u8>> = all.iter().map(|(k, _)| k.clone()).collect();
    let expected: Vec<Vec<u8>> = (0..800u16).filter(|i| i % 10 == 0).map(key_of).collect();
    assert_eq!(keys, expected);
}

#[test]
fn deleting_every_key_leaves_an_empty_tree_that_still_works() {
    let mut tree = fresh_tree(FRAMES);
    for i in 0..600u16 {
        tree.insert(&key_of(i), rid(2, i)).unwrap();
    }
    for i in 0..600u16 {
        assert!(tree.delete(&key_of(i)).unwrap());
    }

    assert_eq!(tree.scan(b"", b"\xff").unwrap(), vec![]);
    tree.insert(b"again", rid(7, 7)).unwrap();
    assert_eq!(tree.lookup(b"again").unwrap(), Some(rid(7, 7)));
}

#[test]
fn a_scan_is_half_open_and_in_key_order() {
    let mut tree = fresh_tree(FRAMES);
    for i in (0..700u16).rev() {
        tree.insert(&key_of(i), rid(3, i)).unwrap();
    }

    let items = tree.scan(&key_of(100), &key_of(350)).unwrap();

    assert_eq!(items.len(), 250);
    for (n, (key, record)) in items.iter().enumerate() {
        let i = 100 + n as u16;
        assert_eq!(key, &key_of(i));
        assert_eq!(*record, rid(3, i));
    }
}

#[test]
fn a_scan_that_starts_between_keys_begins_at_the_next_one() {
    let mut tree = fresh_tree(FRAMES);
    tree.insert(b"b", rid(1, 1)).unwrap();
    tree.insert(b"d", rid(1, 2)).unwrap();
    tree.insert(b"f", rid(1, 3)).unwrap();

    let items = tree.scan(b"c", b"f").unwrap();

    assert_eq!(items, vec![(b"d".to_vec(), rid(1, 2))]);
    assert_eq!(tree.scan(b"g", b"z").unwrap(), vec![]);
}

#[test]
fn a_key_too_long_for_a_leaf_is_refused() {
    let mut tree = fresh_tree(FRAMES);
    let key = vec![1u8; 5000];

    assert!(matches!(
        tree.insert(&key, rid(1, 1)),
        Err(Error::PageFull { size: 5014, free: 4064 })
    ));
    assert_eq!(tree.lookup(&key).unwrap(), None);
}

#[test]
fn a_tree_with_one_frame_cannot_open_a_fresh_file() {
    assert!(matches!(
        BTree::open(DiskManager::new(), 1),
        Err(Error::BufferPoolFull)
    ));
    assert!(matches!(
        BTree::open(DiskManager::new(), 0),
        Err(Error::BufferPoolFull)
    ));
}

#[test]
fn a_page_that_is_neither_slotted_nor_zeroed_is_refused_on_open() {
    let tree = fresh_tree(FRAMES);
    let disk = tree.pool.into_disk();
    let mut pages: Vec<Page> = (0..2u64).map(|i| disk.read_page(PageId(i)).unwrap()).collect();
    pages.push(Page::from_bytes([0x5Au8; mnemosyne::page::PAGE_SIZE]));

    assert!(matches!(
        BTree::open(DiskManager::from_pages(pages), FRAMES),
        Err(Error::CorruptPage(2))
    ));
}

#[test]
fn split_point_halves_the_bytes() {
    let even = vec![vec![0u8; 20]; 4];
    assert_eq!(split_point(&even), 2);
    let heavy_first = vec![vec![0u8; 50], vec![0u8; 10], vec![0u8; 10], vec![0u8; 10]];
    assert_eq!(split_point(&heavy_first), 1);
    let heavy_last = vec![vec![0u8; 10], vec![0u8; 10], vec![0u8; 10], vec![0u8; 50]];
    assert_eq!(split_point(&heavy_last), 3);
}

#[test]
fn an_emptied_root_leaf_takes_a_key_larger_than_its_free_space() {
    let mut tree = fresh_tree(FRAMES);
    let keys: Vec<Vec<u8>> = (0u8..3).map(|i| vec![b'a' + i; 1000]).collect();
    for (i, k) in keys.iter().enumerate() {
        tree.insert(k, rid(9, i as u16)).unwrap();
    }
    assert_eq!(root_slot_count(&mut tree), 3);
    for k in &keys {
        assert_eq!(tree.delete(k).unwrap(), true);
    }
    assert_eq!(root_slot_count(&mut tree), 0);
    // the deleted entries' bytes are stranded, so this key only fits once they are reclaimed
    let big = vec![b'z'; 1500];
    tree.insert(&big, rid(9, 7)).unwrap();
    assert_eq!(tree.root().unwrap(), PageId(1));
    assert_eq!(tree.lookup(&big).unwrap(), Some(rid(9, 7)));
}
