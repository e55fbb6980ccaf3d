# mnemosyne

An embedded transactional key-value storage engine, verified with Verus:
fixed-size pages, slotted records, an LRU buffer pool, a B+tree index, an
append-only heap of record versions, and snapshot-isolated transactions.

## Layout

```
src/
  page.rs            Page, PageId, RecordId, little-endian field codecs
  page/slotted.rs    slot directory, records growing down from the page end
  page/meta.rs       page 0: magic, version, tree root, heap tail, timestamps
  disk.rs            the file as a sequence of pages, held in memory
  buffer.rs          frames, pins, dirty write-back, flush
  buffer/replacer.rs LRU choice of the frame to evict
  heap.rs            append-only records, tail kept in page 0
  btree/key.rs       byte-string keys and their order
  btree/node.rs      leaf and internal node layout, binary search
  btree/tree.rs      open, lookup, scan, and the specs the tree is stated in
  btree/insert.rs    insertion with leaf and internal splits
  btree/delete.rs    deletion with merges of underfull children
  mvcc/version.rs    version record: begin, end, previous version, value
  mvcc/txn.rs        timestamps, snapshots, visibility
  db.rs              transactional get / put / delete over tree and heap
tests/               scenarios for every layer
app/                 the file underneath: read pages on open, write and
                     fsync them on flush and close
```

The library works on a `DiskManager` that holds the file's pages; `app/`
reads a file into one and writes it back. Everything in `src/` is verified;
its contracts are stated over the pages of the database (`Seq<Seq<u8>>`),
decoded by spec functions such as `records_of`, `node_key`, `heap_record`,
`descend` and `chain_read`.

The tree's contracts speak of `tree_lookup`, what looking a key up from the
meta page finds. `insert` makes the key find its record and leaves every other
key finding what it found, on trees whose search paths are in order
(`search_path_ordered`) and part for good (`apart`); `delete` makes the key
find nothing and leaves every other key alone on well-formed trees
(`tree_valid`), merges included; `scan` returns exactly what a walk along the
leaf chain yields (`chain_scan`). A fresh file holds a well-formed tree, and
an insert or delete that changes only one leaf keeps it well-formed
(`law_leaf_update_keeps_valid`).
An insert into a leaf with room for the key, and a delete that leaves its
leaf at least half full, are owed success on trees with ordered search
paths. So is an insert that must split, as far up as it goes, when the key
and every entry on its path are small (`path_small`: at most a quarter of a
page) and two frames can be had; and a delete that must merge, on a
well-formed tree whose path children and their neighbours are of one kind
(`path_alike`). An empty node whose bytes are all stranded is compacted
before it takes an entry.

`put` stamps the end of the version it replaces, writes the new version in
front of it, and leaves every other version on a heap page as it was; a
reader that does not see the writer therefore reads along the chain what it
read before (`law_unseen_put_keeps_reads`).

The whole file lives in the `DiskManager` while the database is open.
Evicting a dirty page writes it to that in-memory image, not to the file;
`BufferPool::flush_all` brings the image up to date, and the file itself
changes only when `app/` writes the image back (on flush and on close).
