//! Transactions over the tree and the heap: each key maps to its newest
//! version, and each version points one step older. A transaction reads the
//! newest version it sees, and writes new versions stamped with its
//! timestamp.
use crate::btree::node::{is_internal_page, is_leaf_page};
use crate::btree::delete::delete_error;
use crate::btree::node::{node_ok, RID_SIZE};
use crate::btree::insert::{leaf_has_room, path_small, small_entry};
use crate::btree::tree::{path_ranged, next_on_path, fresh_pages, descend, lemma_descend_on_path, has_entry, lemma_descend_agree, lemma_descend_more_fuel, lemma_on_path_ordered, lemma_path_ranged_agree, lemma_path_ranged_descends, lemma_path_ranged_more_fuel, on_path, search_path_ordered, tree_lookup, BTree};
use crate::disk::DiskManager;
use crate::error::{Error, Result};
use crate::heap;
use crate::heap::{heap_record, law_records_kept_trans, lemma_records_kept_refl};
use crate::mvcc::txn::{Txn, TxnManager};
use crate::mvcc::version::{encode_version, lemma_set_end_keeps_the_rest, lemma_version_round_trip, set_version_end, version_begin, version_begin_of, version_end, version_end_of, version_prev, version_prev_of, version_value, version_value_of, NO_END, OFF_END, VERSION_HEADER_SIZE};
use crate::page::meta::{meta_valid, heap_tail_of, meta_heap_tail, meta_next_timestamp, meta_root, META_PAGE};
use crate::page::slotted::{page_ok, pages_ok, page_type_of, records_of, slotted_wf, MAX_SLOTS, SLOT_SIZE};
use crate::page::{le64, splice, PageId, RecordId};
use vstd::prelude::*;

verus! {

/// The heap tail, where new versions go, is a page of the file and no node
/// of the tree.
pub open spec fn heap_tail_plain(pages: Seq<Seq<u8>>) -> bool {
    match heap_tail_of(pages[0]) {
        Some(t) => t.0 < pages.len() && !is_leaf_page(pages[t.0 as int]) && !is_internal_page(
            pages[t.0 as int],
        ),
        None => true,
    }
}

/// Why a write by `txn` is refused once the tree led to the head version at
/// `head`, if it is: the version must be readable, and its writer and any
/// deleter must be seen by `txn`.
pub open spec fn head_refusal(pages: Seq<Seq<u8>>, head: RecordId, txn: Txn) -> Option<Error> {
    if head.page.0 == META_PAGE {
        Some(Error::CorruptPage(META_PAGE))
    } else {
        match heap_record(pages, head) {
            None => heap::lookup_error(pages, head),
            Some(v) => if v.len() < VERSION_HEADER_SIZE {
                Some(Error::CorruptPage(head.page.0))
            } else if conflicts(pages, head, txn) {
                Some(Error::WriteConflict)
            } else {
                None
            },
        }
    }
}

/// What deleting by `txn` answers once the tree led to the head version at
/// `head`: a refusal as [`head_refusal`] says; else a version already ended
/// is left alone (`false`), and a live one is ended (`true`).
pub open spec fn delete_outcome(pages: Seq<Seq<u8>>, head: RecordId, txn: Txn) -> Result<bool> {
    match head_refusal(pages, head, txn) {
        Some(e) => Err(e),
        None => if version_end_of(heap_record(pages, head)->0) != NO_END {
            Ok(false)
        } else {
            Ok(true)
        },
    }
}

/// From `a` to `b` the version at `head` was ended at `end` if it was live,
/// and left as it was if it had ended.
pub open spec fn head_stamped(a: Seq<Seq<u8>>, b: Seq<Seq<u8>>, head: RecordId, end: u64) -> bool {
    match heap_record(a, head) {
        Some(v) => if version_end_of(v) == NO_END {
            ended_by(a, b, head, end)
        } else {
            heap_record(b, head) == Some(v)
        },
        None => true,
    }
}

/// A put of `value` under `key` has room: the new version fits on a page,
/// and the leaf the key leads to takes the key in place.
#[verifier::opaque]
pub open spec fn put_room(pages: Seq<Seq<u8>>, key: Seq<u8>, value: Seq<u8>) -> bool {
    &&& VERSION_HEADER_SIZE + value.len() <= heap::max_record()
    &&& descend(pages, meta_root(pages[0]) as int, key, pages.len()) matches Some(leaf)
    &&& leaf_has_room(pages[leaf], key)
}

/// A put of `value` under `key` is sure to find room, splitting as it
/// must: the new version fits on a page, and the key and every entry on
/// its search path are small.
#[verifier::opaque]
pub open spec fn put_split_room(pages: Seq<Seq<u8>>, key: Seq<u8>, value: Seq<u8>) -> bool {
    &&& VERSION_HEADER_SIZE + value.len() <= heap::max_record()
    &&& RID_SIZE + key.len() <= small_entry()
    &&& path_small(pages, meta_root(pages[0]) as int, key, pages.len())
}

/// Small entries along an ordered search path stay small while the pages
/// on it stay, whatever fuel the search is given beyond what it needs.
proof fn lemma_path_small_kept(
    a: Seq<Seq<u8>>,
    b: Seq<Seq<u8>>,
    pid: int,
    key: Seq<u8>,
    lo: Option<Seq<u8>>,
    hi: Option<Seq<u8>>,
    fa: nat,
    fb: nat,
)
    requires
        path_ranged(a, pid, key, lo, hi, fa),
        path_small(a, pid, key, fa),
        fa <= fb,
        forall|q: int| on_path(a, pid, key, fa, q) ==> #[trigger] b[q] == a[q],
    ensures
        path_small(b, pid, key, fb),
    decreases fa,
{
    assert(on_path(a, pid, key, fa, pid));
    assert(b[pid] == a[pid]);
    let s = a[pid];
    if !is_leaf_page(s) {
        let n = next_on_path(s, key);
        let c = crate::btree::tree::child_index(s, key);
        assert forall|q: int| on_path(a, n, key, (fa - 1) as nat, q) implies #[trigger] b[q] == a[q] by {
            assert(on_path(a, pid, key, fa, q));
        }
        lemma_path_small_kept(
            a,
            b,
            n,
            key,
            crate::btree::tree::child_lo(s, c, lo),
            crate::btree::tree::child_hi(s, c, hi),
            (fa - 1) as nat,
            (fb - 1) as nat,
        );
    }
}

/// Page `p` of `pages` is a plain page: not the meta page, a leaf or an
/// internal node.
pub open spec fn plain_page(pages: Seq<Seq<u8>>, p: int) -> bool {
    p != META_PAGE && !is_leaf_page(pages[p]) && !is_internal_page(pages[p])
}

/// Rewriting one record in its slot leaves every other record as it was.
proof fn lemma_slot_rewritten(a: Seq<Seq<u8>>, b: Seq<Seq<u8>>, rid0: RecordId)
    requires
        a.len() == b.len(),
        heap_record(a, rid0) is Some,
        slotted_wf(b[rid0.page.0 as int]),
        records_of(b[rid0.page.0 as int]).len() == records_of(a[rid0.page.0 as int]).len(),
        forall|i: int| 0 <= i < records_of(a[rid0.page.0 as int]).len() && i != rid0.slot ==>
            #[trigger] records_of(b[rid0.page.0 as int])[i] == records_of(a[rid0.page.0 as int])[i],
        forall|q: int| 0 <= q < a.len() && q != rid0.page.0 ==> #[trigger] b[q] == a[q],
    ensures
        forall|rid: RecordId| rid != rid0 ==> #[trigger] heap_record(b, rid) == heap_record(a, rid),
{
    assert forall|rid: RecordId| rid != rid0 implies #[trigger] heap_record(b, rid) == heap_record(a, rid) by {
        if rid.page.0 != rid0.page.0 && rid.page.0 < a.len() {
            assert(b[rid.page.0 as int] == a[rid.page.0 as int]);
        }
    }
}

/// What a put keeps of the heap: from `p0` the heap took in one record
/// (`p2`), the live head `touched`, if any, had its end stamped (`p3`), and
/// the tree changed only node pages (`p4`). Every record on a plain page
/// but the head stays, and the head is stamped if it was live.
proof fn lemma_put_kept(
    p0: Seq<Seq<u8>>,
    p2: Seq<Seq<u8>>,
    p3: Seq<Seq<u8>>,
    p4: Seq<Seq<u8>>,
    key: Seq<u8>,
    touched: Option<RecordId>,
    ts: u64,
)
    requires
        crate::heap::records_kept(p0, p2),
        crate::heap::types_kept(p0, p2),
        crate::heap::types_kept(p2, p3),
        p3.len() == p2.len(),
        forall|rid: RecordId| Some(rid) != touched ==> #[trigger] heap_record(p3, rid) == heap_record(p2, rid),
        touched matches Some(t) ==> has_entry(p0, key, t) && heap_record(p0, t) is Some && heap_record(p3, t)
            == Some(splice(heap_record(p0, t)->0, OFF_END as int, le64(ts))) && version_end_of(
            heap_record(p0, t)->0,
        ) == NO_END && heap_record(p0, t)->0.len() >= VERSION_HEADER_SIZE,
        touched is None ==> p3 == p2,
        crate::btree::tree::nodes_frame(p3, p4),
        tree_lookup(p0, key) matches Some(Some(h)) ==> h.page.0 != META_PAGE,
        tree_lookup(p0, key) == Some(None::<RecordId>) ==> touched is None,
        tree_lookup(p0, key) matches Some(Some(h)) ==> touched == (if heap_record(p0, h) matches Some(v)
            && version_end_of(v) == NO_END {
            Some(h)
        } else {
            None
        }),
    ensures
        forall|rid: RecordId|
            heap_record(p0, rid) is Some && plain_page(p0, rid.page.0 as int) && !has_entry(p0, key, rid)
                ==> #[trigger] heap_record(p4, rid) == heap_record(p0, rid),
        head_off_tree(p0, key) ==> (tree_lookup(p0, key) matches Some(Some(h)) ==> head_stamped(p0, p4, h, ts)),
        forall|rid: RecordId|
            heap_record(p0, rid) is Some && plain_page(p0, rid.page.0 as int) && tree_lookup(p0, key) is Some
                && tree_lookup(p0, key) != Some(Some(rid)) ==> #[trigger] heap_record(p4, rid) == heap_record(p0, rid),
{
    lemma_records_kept_refl(p2);
    assert forall|rid: RecordId|
        heap_record(p0, rid) is Some && plain_page(p0, rid.page.0 as int) && !has_entry(p0, key, rid)
            implies #[trigger] heap_record(p4, rid) == heap_record(p0, rid) by {
        let q = rid.page.0 as int;
        law_records_kept_trans(p0, p2, p2, rid);
        assert(heap_record(p3, rid) == heap_record(p2, rid));
        assert(page_type_of(p3[q]) == page_type_of(p0[q]));
        assert(!node_ok(p3[q]));
        assert(p4[q] == p3[q]);
    }
    assert forall|rid: RecordId|
        heap_record(p0, rid) is Some && plain_page(p0, rid.page.0 as int) && tree_lookup(p0, key) is Some
            && tree_lookup(p0, key) != Some(Some(rid)) implies #[trigger] heap_record(p4, rid) == heap_record(p0, rid) by {
        let q = rid.page.0 as int;
        law_records_kept_trans(p0, p2, p2, rid);
        assert(Some(rid) != touched);
        assert(heap_record(p3, rid) == heap_record(p2, rid));
        assert(page_type_of(p3[q]) == page_type_of(p0[q]));
        assert(!node_ok(p3[q]));
        assert(p4[q] == p3[q]);
    }
    if head_off_tree(p0, key) {
        if let Some(Some(h)) = tree_lookup(p0, key) {
            let q = h.page.0 as int;
            if heap_record(p0, h) is Some {
                law_records_kept_trans(p0, p2, p2, h);
                assert(page_type_of(p3[q]) == page_type_of(p0[q]));
                assert(!node_ok(p3[q]));
                assert(p4[q] == p3[q]);
            }
        }
    }
}

/// The version that `key` maps to, if any, lies in no node of the tree.
pub open spec fn head_off_tree(pages: Seq<Seq<u8>>, key: Seq<u8>) -> bool {
    tree_lookup(pages, key) matches Some(Some(h)) ==> !is_leaf_page(pages[h.page.0 as int])
        && !is_internal_page(pages[h.page.0 as int])
}

/// The search path for `key` stays in order when no node page changed and
/// the root stayed.
proof fn lemma_search_path_kept(a: Seq<Seq<u8>>, b: Seq<Seq<u8>>, key: Seq<u8>)
    requires
        search_path_ordered(a, key),
        a.len() <= b.len(),
        meta_root(b[0]) == meta_root(a[0]),
        forall|q: int|
            1 <= q < a.len() && (is_leaf_page(a[q]) || is_internal_page(a[q])) ==> #[trigger] b[q] == a[q],
    ensures
        search_path_ordered(b, key),
{
    let root = meta_root(a[0]) as int;
    lemma_path_ranged_descends(a, root, key, None, None, a.len());
    assert forall|q: int| #[trigger] on_path(a, root, key, a.len(), q) implies b[q] == a[q] by {
        lemma_on_path_ordered(a, root, key, a.len(), q);
    }
    lemma_path_ranged_agree(a, b, root, key, None, None, a.len());
    lemma_path_ranged_more_fuel(b, root, key, None, None, a.len(), b.len());
}

/// Room for a put stays while no node changes and the root stays.
proof fn lemma_put_room_kept(a: Seq<Seq<u8>>, b: Seq<Seq<u8>>, key: Seq<u8>, value: Seq<u8>)
    requires
        search_path_ordered(a, key),
        a.len() <= b.len(),
        meta_root(b[0]) == meta_root(a[0]),
        forall|q: int|
            1 <= q < a.len() && (is_leaf_page(a[q]) || is_internal_page(a[q])) ==> #[trigger] b[q] == a[q],
    ensures
        put_room(a, key, value) ==> put_room(b, key, value),
        put_split_room(a, key, value) ==> put_split_room(b, key, value),
{
    reveal(put_room);
    reveal(put_split_room);
    let root = meta_root(a[0]) as int;
    lemma_path_ranged_descends(a, root, key, None, None, a.len());
    assert forall|q: int| #[trigger] on_path(a, root, key, a.len(), q) implies b[q] == a[q] by {
        lemma_on_path_ordered(a, root, key, a.len(), q);
    }
    lemma_descend_agree(a, b, root, key, a.len());
    lemma_descend_more_fuel(b, root, key, a.len(), b.len());
    let leaf = descend(a, root, key, a.len())->0;
    lemma_descend_on_path(a, root, key, a.len());
    lemma_on_path_ordered(a, root, key, a.len(), leaf);
    assert(b[leaf] == a[leaf]);
    if put_split_room(a, key, value) {
        lemma_path_small_kept(a, b, root, key, None, None, a.len(), b.len());
    }
}

/// Looking a key up on an ordered search path finds the same after a write
/// to one page that is no node.
proof fn lemma_lookup_kept_off_tree(a: Seq<Seq<u8>>, b: Seq<Seq<u8>>, key: Seq<u8>, hp: int)
    requires
        search_path_ordered(a, key),
        a.len() <= b.len(),
        b[0] == a[0],
        forall|q: int| 0 <= q < a.len() && q != hp ==> #[trigger] b[q] == a[q],
        0 <= hp < a.len() ==> !is_leaf_page(a[hp]) && !is_internal_page(a[hp]),
    ensures
        tree_lookup(b, key) == tree_lookup(a, key),
{
    let root = meta_root(a[0]) as int;
    lemma_path_ranged_descends(a, root, key, None, None, a.len());
    assert forall|q: int| #[trigger] on_path(a, root, key, a.len(), q) implies b[q] == a[q] by {
        lemma_on_path_ordered(a, root, key, a.len(), q);
    }
    lemma_descend_agree(a, b, root, key, a.len());
    lemma_descend_more_fuel(b, root, key, a.len(), b.len());
}

/// A put's heap writes -- a new version at the tail, and the end stamp on
/// the version it replaces, which lies in no node -- keep the search path
/// for its key in order.
proof fn lemma_put_keeps_path(a: Seq<Seq<u8>>, b: Seq<Seq<u8>>, c: Seq<Seq<u8>>, key: Seq<u8>, hp: int, value: Seq<u8>)
    requires
        search_path_ordered(a, key),
        heap_tail_plain(a),
        a.len() <= b.len(),
        b.len() <= c.len(),
        meta_root(c[0]) == meta_root(a[0]),
        forall|q: int| 1 <= q < a.len() && q != meta_heap_tail(a[0]) ==> #[trigger] b[q] == a[q],
        forall|q: int| 0 <= q < b.len() && q != hp ==> #[trigger] c[q] == b[q],
        0 <= hp < a.len() ==> !is_leaf_page(a[hp]) && !is_internal_page(a[hp]),
    ensures
        search_path_ordered(c, key),
        put_room(a, key, value) ==> put_room(c, key, value),
        put_split_room(a, key, value) ==> put_split_room(c, key, value),
{
    assert forall|q: int|
        1 <= q < a.len() && (is_leaf_page(a[q]) || is_internal_page(a[q])) implies #[trigger] c[q] == a[q] by {
        assert(b[q] == a[q]);
        assert(c[q] == b[q]);
    }
    lemma_search_path_kept(a, c, key);
    lemma_put_room_kept(a, c, key, value);
}

/// A heap insertion keeps the tail plain: it stays where it was, or moves
/// to the plain page added at the end.
proof fn lemma_tail_plain_after_insert(a: Seq<Seq<u8>>, b: Seq<Seq<u8>>)
    requires
        a.len() >= 1,
        heap_tail_plain(a),
        a.len() <= b.len() <= a.len() + 1,
        b.len() <= u64::MAX,
        crate::heap::types_kept(a, b),
        heap_tail_of(b[0]) == heap_tail_of(a[0]) || heap_tail_of(b[0]) == Some(
            PageId(a.len() as u64),
        ),
        heap_tail_of(b[0]) is Some ==> (heap_tail_of(b[0])->0).0 < b.len(),
    ensures
        heap_tail_plain(b),
{
    if let Some(t) = heap_tail_of(b[0]) {
        if t.0 < a.len() {
            assert(page_type_of(b[t.0 as int]) == page_type_of(a[t.0 as int]));
        } else {
            assert(page_type_of(b[t.0 as int]) == crate::page::slotted::PAGE_TYPE_SLOTTED);
        }
    }
}

/// What reading the chain of versions from `rid` gives `txn`, following at
/// most `fuel` links to older versions: `Some(Some(value))` for the first
/// version it sees, `Some(None)` when it sees none, and `None` when a record
/// of the chain is missing or too short to be a version.
pub open spec fn chain_read(pages: Seq<Seq<u8>>, txn: Txn, rid: RecordId, fuel: nat) -> Option<
    Option<Seq<u8>>,
>
    decreases fuel,
{
    match heap_record(pages, rid) {
        None => None,
        Some(v) => {
            if v.len() < VERSION_HEADER_SIZE {
                None
            } else if txn.sees_version_spec(version_begin_of(v), version_end_of(v)) {
                Some(Some(version_value_of(v)))
            } else {
                match version_prev_of(v) {
                    None => Some(None),
                    Some(prev) => if fuel == 0 {
                        None
                    } else {
                        chain_read(pages, txn, prev, (fuel - 1) as nat)
                    },
                }
            }
        },
    }
}

/// How many links a chain of versions in a file of `n` pages can have at
/// most: each version is a record of its own.
pub open spec fn chain_fuel(n: nat) -> nat {
    if n * MAX_SLOTS <= u64::MAX {
        (n * MAX_SLOTS) as nat
    } else {
        u64::MAX as nat
    }
}

/// The value of an optional byte vector.
pub open spec fn opt_bytes(v: Option<Vec<u8>>) -> Option<Seq<u8>> {
    match v {
        Some(b) => Some(b@),
        None => None,
    }
}

/// At `rid` lies a live version that `begin` created, holding `value`.
pub open spec fn fresh_version(pages: Seq<Seq<u8>>, rid: RecordId, begin: u64, value: Seq<u8>) -> bool {
    match heap_record(pages, rid) {
        Some(v) => {
            &&& v.len() >= VERSION_HEADER_SIZE
            &&& version_begin_of(v) == begin
            &&& version_end_of(v) == NO_END
            &&& version_value_of(v) == value
        },
        None => false,
    }
}

/// The version at `head` was last written by a transaction that `txn` does
/// not see, so `txn` may not put a newer one on top of it.
pub open spec fn conflicts(pages: Seq<Seq<u8>>, head: RecordId, txn: Txn) -> bool {
    match heap_record(pages, head) {
        Some(v) => v.len() >= VERSION_HEADER_SIZE && !txn.can_add_newer_version_spec(
            version_begin_of(v),
            version_end_of(v),
        ),
        None => false,
    }
}

/// The live version at `head` in `a` has `end` stamped as its end in `b`,
/// all else of it kept.
pub open spec fn ended_by(a: Seq<Seq<u8>>, b: Seq<Seq<u8>>, head: RecordId, end: u64) -> bool {
    match heap_record(a, head) {
        Some(v) => {
            &&& v.len() >= VERSION_HEADER_SIZE
            &&& version_end_of(v) == NO_END
            &&& heap_record(b, head) == Some(splice(v, OFF_END as int, le64(end)))
        },
        None => false,
    }
}

/// A transaction reads its own write: the live version it created is the
/// first it sees in the chain, with the value it wrote.
pub proof fn law_writer_sees_own_version(pages: Seq<Seq<u8>>, txn: Txn, rid: RecordId, value: Seq<u8>, fuel: nat)
    requires
        fresh_version(pages, rid, txn.timestamp, value),
        txn.timestamp != NO_END,
    ensures
        chain_read(pages, txn, rid, fuel) == Some(Some(value)),
{
}

/// A transaction that sees the writer of a live version -- its own, or one
/// that finished before it began -- reads that version's value.
pub proof fn law_seen_writer_read(pages: Seq<Seq<u8>>, reader: Txn, rid: RecordId, writer: u64, value: Seq<u8>, fuel: nat)
    requires
        fresh_version(pages, rid, writer, value),
        reader.sees_spec(writer),
        reader.timestamp != NO_END,
    ensures
        chain_read(pages, reader, rid, fuel) == Some(Some(value)),
{
}

/// A transaction reads back what it put: once `key` maps to the live
/// version it wrote -- what `put` leaves on a tree whose search path for
/// `key` is in order -- looking `key` up finds that version and reading
/// its chain gives the value.
pub proof fn law_get_after_put(pages: Seq<Seq<u8>>, txn: Txn, key: Seq<u8>, rid: RecordId, value: Seq<u8>)
    requires
        tree_lookup(pages, key) == Some(Some(rid)),
        fresh_version(pages, rid, txn.timestamp, value),
        txn.timestamp != NO_END,
    ensures
        tree_lookup(pages, key) matches Some(Some(head)) && chain_read(
            pages,
            txn,
            head,
            chain_fuel(pages.len()),
        ) == Some(Some(value)),
{
    law_writer_sees_own_version(pages, txn, rid, value, chain_fuel(pages.len()));
}

/// A transaction that does not see the writer of a version reads past it,
/// as if the chain began at the version before.
pub proof fn law_unseen_version_skipped(pages: Seq<Seq<u8>>, reader: Txn, rid: RecordId, writer: u64, value: Seq<u8>, fuel: nat)
    requires
        fresh_version(pages, rid, writer, value),
        !reader.sees_spec(writer),
    ensures
        chain_read(pages, reader, rid, fuel) == match version_prev_of(heap_record(pages, rid)->0) {
            None => Some(None),
            Some(prev) => if fuel == 0 {
                None
            } else {
                chain_read(pages, reader, prev, (fuel - 1) as nat)
            },
        },
{
}

/// The second writer of a key loses: a transaction that does not see the
/// writer of the live version may not put a newer one on top of it.
pub proof fn law_unseen_writer_conflicts(pages: Seq<Seq<u8>>, rid: RecordId, writer: u64, value: Seq<u8>, txn: Txn)
    requires
        fresh_version(pages, rid, writer, value),
        !txn.sees_spec(writer),
    ensures
        conflicts(pages, rid, txn),
{
}

/// A writer that sees the last write to a live version may put a newer one
/// on top of it.
pub proof fn law_seen_writer_no_conflict(pages: Seq<Seq<u8>>, rid: RecordId, writer: u64, value: Seq<u8>, txn: Txn)
    requires
        fresh_version(pages, rid, writer, value),
        txn.sees_spec(writer),
    ensures
        !conflicts(pages, rid, txn),
{
}

/// A transaction no longer sees a version it deleted.
pub proof fn law_deleter_no_longer_sees(a: Seq<Seq<u8>>, b: Seq<Seq<u8>>, head: RecordId, txn: Txn)
    requires
        ended_by(a, b, head, txn.timestamp),
    ensures
        heap_record(b, head) matches Some(v) && v.len() >= VERSION_HEADER_SIZE && !txn.sees_version_spec(
            version_begin_of(v),
            version_end_of(v),
        ),
{
    let v = heap_record(a, head)->0;
    lemma_set_end_keeps_the_rest(v, txn.timestamp);
}

/// A delete keeps the value for snapshots that do not see the deleter:
/// whoever read the version before still reads it.
pub proof fn law_delete_invisible_to_others(a: Seq<Seq<u8>>, b: Seq<Seq<u8>>, head: RecordId, deleter: u64, reader: Txn, fuel: nat)
    requires
        ended_by(a, b, head, deleter),
        !reader.sees_spec(deleter),
        chain_read(a, reader, head, fuel) matches Some(Some(_)),
        heap_record(a, head) matches Some(v) && reader.sees_version_spec(version_begin_of(v), version_end_of(v)),
    ensures
        chain_read(b, reader, head, fuel) == chain_read(a, reader, head, fuel),
{
    let v = heap_record(a, head)->0;
    lemma_set_end_keeps_the_rest(v, deleter);
}

/// The version chain from `rid`, through at most `fuel` links, lies on
/// plain pages and every version on it can be read.
pub open spec fn chain_on_plain(pages: Seq<Seq<u8>>, rid: RecordId, fuel: nat) -> bool
    decreases fuel,
{
    match heap_record(pages, rid) {
        None => false,
        Some(v) => {
            &&& plain_page(pages, rid.page.0 as int)
            &&& v.len() >= VERSION_HEADER_SIZE
            &&& match version_prev_of(v) {
                Some(p) => fuel > 0 ==> chain_on_plain(pages, p, (fuel - 1) as nat),
                None => true,
            }
        },
    }
}

/// From `a` to `b` only `head` was stamped, by `writer`, and no other
/// version on a plain page changed: a reader that does not see `writer`
/// reads along every chain as before.
proof fn lemma_chain_unchanged(a: Seq<Seq<u8>>, b: Seq<Seq<u8>>, reader: Txn, writer: u64, head: RecordId, rid: RecordId, fuel: nat)
    requires
        !reader.sees_spec(writer),
        reader.timestamp != NO_END,
        head_stamped(a, b, head, writer),
        forall|q: RecordId|
            heap_record(a, q) is Some && plain_page(a, q.page.0 as int) && q != head ==> #[trigger] heap_record(b, q)
                == heap_record(a, q),
        chain_on_plain(a, rid, fuel),
    ensures
        chain_read(b, reader, rid, fuel) == chain_read(a, reader, rid, fuel),
    decreases fuel,
{
    let v = heap_record(a, rid)->0;
    if rid == head && version_end_of(v) == NO_END {
        lemma_set_end_keeps_the_rest(v, writer);
    }
    if let Some(p) = version_prev_of(v) {
        if fuel > 0 {
            lemma_chain_unchanged(a, b, reader, writer, head, p, (fuel - 1) as nat);
        }
    }
}

/// Snapshot isolation across writers: a put by a writer that the reader
/// does not see -- a new version in front of the old head, and the old
/// head's end stamped -- leaves what the reader reads of the key as it was.
pub proof fn law_unseen_put_keeps_reads(
    a: Seq<Seq<u8>>,
    b: Seq<Seq<u8>>,
    reader: Txn,
    writer: u64,
    head: RecordId,
    new: RecordId,
    value: Seq<u8>,
    fuel: nat,
)
    requires
        !reader.sees_spec(writer),
        reader.timestamp != NO_END,
        fresh_version(b, new, writer, value),
        version_prev_of(heap_record(b, new)->0) == Some(head),
        head_stamped(a, b, head, writer),
        forall|q: RecordId|
            heap_record(a, q) is Some && plain_page(a, q.page.0 as int) && q != head ==> #[trigger] heap_record(b, q)
                == heap_record(a, q),
        chain_on_plain(a, head, fuel),
    ensures
        chain_read(b, reader, new, fuel + 1) == chain_read(a, reader, head, fuel),
{
    lemma_chain_unchanged(a, b, reader, writer, head, head, fuel);
}

pub struct Db {
    tree: BTree,
    txns: TxnManager,
}

impl Db {
    /// The pages of the database.
    pub closed spec fn pages(&self) -> Seq<Seq<u8>> {
        self.tree.pages()
    }

    /// The timestamp that the next transaction gets.
    pub closed spec fn next_timestamp(&self) -> u64 {
        self.txns.next_timestamp_spec()
    }

    /// The transactions that have begun and not committed.
    pub closed spec fn active(&self) -> Set<u64> {
        self.txns.active_spec()
    }

    pub closed spec fn frame_count(&self) -> nat {
        self.tree.pool.frame_count()
    }

    pub closed spec fn wf(&self) -> bool {
        &&& self.tree.wf()
        &&& heap_tail_plain(self.tree.pages())
        &&& meta_next_timestamp(self.tree.pages()[0]) == self.txns.next_timestamp_spec()
    }

    /// Opens the database in `disk`, creating it if the disk is empty, and
    /// resumes the timestamps where the last session stopped.
    pub fn open(disk: DiskManager, frame_count: usize) -> (r: Result<Db>)
        requires
            disk@.len() + 2 < usize::MAX,
        ensures
            match r {
                Ok(db) => {
                    &&& db.wf()
                    &&& db.frame_count() == frame_count
                    &&& db.active() == Set::<u64>::empty()
                    &&& db.next_timestamp() == meta_next_timestamp(db.pages()[0])
                    &&& disk@.len() > 0 ==> db.pages() == disk@
                    &&& disk@.len() == 0 ==> fresh_pages(db.pages())
                },
                Err(Error::BufferPoolFull) => frame_count == 0 || (frame_count == 1
                    && disk@.len() == 0),
                Err(Error::BadMetaPage) => frame_count > 0 && disk@.len() > 0 && !meta_valid(disk@[0]),
                Err(Error::CorruptPage(p)) => {
                    &&& frame_count > 0
                    &&& disk@.len() > 0
                    &&& meta_valid(disk@[0])
                    &&& {
                        ||| 1 <= p < disk@.len() && !page_ok(disk@[p as int]) && forall|q: int|
                            1 <= q < p ==> page_ok(#[trigger] disk@[q])
                        ||| pages_ok(disk@) && heap_tail_of(disk@[0]) == Some(PageId(p)) && !heap_tail_plain(
                            disk@,
                        )
                    }
                },
                _ => false,
            },
    {
        let mut tree = match BTree::open(disk, frame_count) {
            Ok(t) => t,
            Err(e) => return Err(e),
        };
        proof {
            tree.pool.lemma_unpinned_has_free_frame();
            tree.pool.lemma_unpinned_pin(META_PAGE);
        }
        let frame = match tree.pool.fetch_page(PageId(META_PAGE)) {
            Ok(f) => f,
            Err(e) => {
                assert(false);
                return Err(e);
            },
        };
        let next_timestamp = tree.pool.page(frame).next_timestamp();
        let tail = tree.pool.page(frame).heap_tail();
        crate::btree::tree::release(&mut tree.pool, frame);
        // the heap tail must not be a node of the tree
        if let Some(t) = tail {
            let count = match tree.pool.page_count() {
                Ok(c) => c,
                Err(e) => return Err(e),
            };
            if t.0 >= count {
                return Err(Error::CorruptPage(t.0));
            } else {
                proof {
                    tree.pool.lemma_unpinned_has_free_frame();
                    tree.pool.lemma_unpinned_pin(t.0);
                }
                let frame = match tree.pool.fetch_page(t) {
                    Ok(f) => f,
                    Err(e) => {
                        assert(false);
                        return Err(e);
                    },
                };
                proof {
                    tree.pool.lemma_frame_view(frame as int);
                }
                let node = tree.pool.page(frame).is_leaf() || tree.pool.page(frame).is_internal();
                crate::btree::tree::release(&mut tree.pool, frame);
                if node {
                    return Err(Error::CorruptPage(t.0));
                }
            }
        }
        Ok(Db { tree, txns: TxnManager::new(next_timestamp) })
    }

    /// Starts a transaction, and records in the meta page that its timestamp
    /// is taken.
    pub fn begin(&mut self) -> (r: Result<Txn>)
        requires
            old(self).wf(),
            old(self).next_timestamp() < u64::MAX,
        ensures
            final(self).wf(),
            final(self).frame_count() == old(self).frame_count(),
            final(self).pages().len() == old(self).pages().len(),
            meta_root(final(self).pages()[0]) == meta_root(old(self).pages()[0]),
            heap_tail_of(final(self).pages()[0]) == heap_tail_of(old(self).pages()[0]),
            forall|q: int|
                1 <= q < old(self).pages().len() ==> #[trigger] final(self).pages()[q] == old(
                    self,
                ).pages()[q],
            match r {
                Ok(txn) => {
                    &&& txn.timestamp == old(self).next_timestamp()
                    &&& txn.running_at_begin@ == old(self).active()
                    &&& final(self).next_timestamp() == old(self).next_timestamp() + 1
                    &&& final(self).active() == old(self).active().insert(txn.timestamp)
                },
                Err(_) => false,
            },
    {
        let txn = self.txns.begin();
        proof {
            self.tree.pool.lemma_unpinned_has_free_frame();
            self.tree.pool.lemma_unpinned_pin(META_PAGE);
        }
        let frame = match self.tree.pool.fetch_page(PageId(META_PAGE)) {
            Ok(f) => f,
            Err(e) => {
                assert(false);
                return Err(e);
            },
        };
        let ghost pages0 = self.tree.pages();
        self.tree.pool.page_mut(frame).set_next_timestamp(txn.timestamp + 1);
        crate::btree::tree::release(&mut self.tree.pool, frame);
        proof {
            let pages1 = self.tree.pages();
            assert forall|q: int| 1 <= q < pages1.len() implies #[trigger] pages1[q] == pages0[q] by {}
            assert(crate::page::slotted::pages_ok(pages1)) by {
                assert forall|q: int| 1 <= q < pages1.len() implies crate::page::slotted::page_ok(
                    #[trigger] pages1[q],
                ) by {
                    assert(pages1[q] == pages0[q]);
                }
            }
            assert forall|q: int|
                1 <= q < pages0.len() && !crate::btree::node::node_ok(#[trigger] pages0[q]) implies pages1[q]
                == pages0[q] by {}
        }
        Ok(txn)
    }

    /// The value of the newest version in the chain from `head` that `txn`
    /// sees, if it sees one.
    pub fn read_chain(&mut self, txn: &Txn, head: RecordId) -> (r: Result<Option<Vec<u8>>>)
        requires
            old(self).wf(),
        ensures
            final(self).wf(),
            final(self).pages() == old(self).pages(),
            final(self).frame_count() == old(self).frame_count(),
            final(self).next_timestamp() == old(self).next_timestamp(),
            final(self).active() == old(self).active(),
            match r {
                Ok(v) => chain_read(old(self).pages(), *txn, head, chain_fuel(old(self).pages().len()))
                    == Some(opt_bytes(v)),
                Err(e) => delete_error(e) && chain_read(
                    old(self).pages(),
                    *txn,
                    head,
                    chain_fuel(old(self).pages().len()),
                ) is None,
            },
    {
        let ghost pages = self.pages();
        let count = match self.tree.pool.page_count() {
            Ok(c) => c,
            Err(e) => return Err(e),
        };
        let mut fuel: u64 = match count.checked_mul(MAX_SLOTS as u64) {
            Some(f) => f,
            None => u64::MAX,
        };
        let mut rid = head;
        loop
            invariant
                self.wf(),
                self.pages() == pages,
                pages == old(self).pages(),
                self.frame_count() == old(self).frame_count(),
                self.next_timestamp() == old(self).next_timestamp(),
                self.active() == old(self).active(),
                chain_read(pages, *txn, rid, fuel as nat) == chain_read(
                    pages,
                    *txn,
                    head,
                    chain_fuel(pages.len()),
                ),
            decreases fuel,
        {
            let version = match heap::get(&mut self.tree.pool, rid) {
                Ok(v) => v,
                Err(e) => {
                    proof {
                        crate::heap::lemma_lookup_error(pages, rid);
                    }
                    return Err(e);
                },
            };
            if version.len() < VERSION_HEADER_SIZE {
                return Err(Error::CorruptPage(rid.page.0));
            }
            if txn.sees_version(version_begin(version.as_slice()), version_end(version.as_slice())) {
                return Ok(Some(vstd::slice::slice_to_vec(version_value(version.as_slice()))));
            }
            match version_prev(version.as_slice()) {
                None => return Ok(None),
                Some(older) => {
                    // a chain longer than the file has records went round a cycle
                    if fuel == 0 {
                        return Err(Error::CorruptPage(older.page.0));
                    }
                    fuel = fuel - 1;
                    rid = older;
                },
            }
        }
    }

    /// The newest version of `key` that `txn` sees, if any.
    pub fn get(&mut self, txn: &Txn, key: &[u8]) -> (r: Result<Option<Vec<u8>>>)
        requires
            old(self).wf(),
        ensures
            final(self).wf(),
            final(self).pages() == old(self).pages(),
            final(self).frame_count() == old(self).frame_count(),
            final(self).next_timestamp() == old(self).next_timestamp(),
            final(self).active() == old(self).active(),
            match r {
                Ok(Some(v)) => exists|head: RecordId|
                    has_entry(old(self).pages(), key@, head) && chain_read(
                        old(self).pages(),
                        *txn,
                        head,
                        chain_fuel(old(self).pages().len()),
                    ) == Some(Some(v@)),
                Ok(None) => true,
                Err(e) => delete_error(e),
            },
            tree_lookup(old(self).pages(), key@) == Some(None::<RecordId>) ==> r matches Ok(None),
            tree_lookup(old(self).pages(), key@) matches Some(Some(head)) ==> chain_read(
                old(self).pages(),
                *txn,
                head,
                chain_fuel(old(self).pages().len()),
            ) == match r {
                Ok(v) => Some(opt_bytes(v)),
                Err(_) => None,
            },
    {
        let head = match self.tree.lookup(key) {
            Ok(Some(h)) => h,
            Ok(None) => return Ok(None),
            Err(e) => return Err(e),
        };
        self.read_chain(txn, head)
    }

    /// Writes a new version of `key` holding `value`, stamped with `txn`'s
    /// timestamp and pointing at the version it replaces, and stamps the
    /// end of that version. Refused with a conflict when `txn` does not see
    /// the last write to the key.
    #[verifier::spinoff_prover]
    #[verifier::rlimit(50)]
    pub fn put(&mut self, txn: &mut Txn, key: &[u8], value: &[u8]) -> (r: Result<()>)
        requires
            old(self).wf(),
            2 * old(self).pages().len() + 4 < usize::MAX,
            2 * old(self).pages().len() + 4 <= u64::MAX,
            RID_SIZE + key@.len() + SLOT_SIZE <= usize::MAX,
            VERSION_HEADER_SIZE + value@.len() + SLOT_SIZE <= usize::MAX,
        ensures
            final(self).wf(),
            *final(txn) == *old(txn),
            final(self).frame_count() == old(self).frame_count(),
            final(self).next_timestamp() == old(self).next_timestamp(),
            final(self).active() == old(self).active(),
            final(self).pages().len() <= 2 * old(self).pages().len() + 4,
            match r {
                Ok(()) => exists|rid: RecordId|
                    {
                        &&& has_entry(final(self).pages(), key@, rid)
                        &&& fresh_version(final(self).pages(), rid, old(txn).timestamp, value@)
                        &&& search_path_ordered(old(self).pages(), key@) && head_off_tree(
                            old(self).pages(),
                            key@,
                        ) ==> tree_lookup(final(self).pages(), key@) == Some(Some(rid))
                        &&& tree_lookup(old(self).pages(), key@) matches Some(h) ==> version_prev_of(
                            heap_record(final(self).pages(), rid)->0,
                        ) == h
                    },
                Err(Error::WriteConflict) => {
                    &&& final(self).pages() == old(self).pages()
                    &&& exists|head: RecordId| #[trigger]
                        has_entry(old(self).pages(), key@, head) && conflicts(
                            old(self).pages(),
                            head,
                            *old(txn),
                        )
                },
                Err(Error::BufferPoolFull) => old(self).frame_count() < 2,
                Err(e) => delete_error(e),
            },
            tree_lookup(old(self).pages(), key@) matches Some(Some(head)) ==> (head_refusal(
                old(self).pages(),
                head,
                *old(txn),
            ) matches Some(e) ==> r == Err::<(), Error>(e)),
            r is Ok && head_off_tree(old(self).pages(), key@) ==> (tree_lookup(old(self).pages(), key@) matches Some(
                Some(head),
            ) ==> head_stamped(old(self).pages(), final(self).pages(), head, old(txn).timestamp)),
            forall|rid: RecordId|
                r is Ok && heap_record(old(self).pages(), rid) is Some && plain_page(
                    old(self).pages(),
                    rid.page.0 as int,
                ) && !has_entry(old(self).pages(), key@, rid) ==> #[trigger] heap_record(final(self).pages(), rid)
                    == heap_record(old(self).pages(), rid),
            search_path_ordered(old(self).pages(), key@) && head_off_tree(old(self).pages(), key@) && (put_room(
                old(self).pages(),
                key@,
                value@,
            ) || (old(self).frame_count() >= 2 && put_split_room(old(self).pages(), key@, value@))) && (tree_lookup(old(self).pages(), key@) matches Some(Some(h)) ==> head_refusal(
                old(self).pages(),
                h,
                *old(txn),
            ) is None) ==> r is Ok,
            forall|rid: RecordId|
                r is Ok && heap_record(old(self).pages(), rid) is Some && plain_page(
                    old(self).pages(),
                    rid.page.0 as int,
                ) && tree_lookup(old(self).pages(), key@) is Some && tree_lookup(old(self).pages(), key@) != Some(
                    Some(rid),
                ) ==> #[trigger] heap_record(final(self).pages(), rid) == heap_record(old(self).pages(), rid),
    {
        let ghost pages0 = self.pages();
        let ghost owed = search_path_ordered(pages0, key@) && head_off_tree(pages0, key@) && (put_room(
            pages0,
            key@,
            value@,
        ) || (self.frame_count() >= 2 && put_split_room(pages0, key@, value@))) && (tree_lookup(pages0, key@) matches Some(Some(h)) ==> head_refusal(pages0, h, *txn) is None);
        proof {
            if owed {
                lemma_path_ranged_descends(pages0, meta_root(pages0[0]) as int, key@, None, None, pages0.len());
            }
        }
        let head = match self.tree.lookup(key) {
            Ok(h) => h,
            Err(e) => {
                assert(!owed);
                return Err(e);
            },
        };
        // the version that the new one replaces, with its bytes
        let replaced: Option<(RecordId, Vec<u8>)> = match head {
            Some(old_rid) => {
                if old_rid.page.0 == META_PAGE {
                    assert(!owed);
                    return Err(Error::CorruptPage(META_PAGE));
                }
                match heap::get(&mut self.tree.pool, old_rid) {
                    Ok(v) => Some((old_rid, v)),
                    Err(e) => {
                        proof {
                            crate::heap::lemma_lookup_error(pages0, old_rid);
                            assert(!owed);
                        }
                        return Err(e);
                    },
                }
            },
            None => None,
        };
        match &replaced {
            Some((_, old_version)) => {
                if old_version.len() < VERSION_HEADER_SIZE {
                    assert(!owed);
                    return Err(Error::CorruptPage(head.unwrap().page.0));
                }
                if !txn.can_add_newer_version(
                    version_begin(old_version.as_slice()),
                    version_end(old_version.as_slice()),
                ) {
                    proof {
                        assert(conflicts(pages0, head.unwrap(), *txn));
                        assert(!owed);
                    }
                    return Err(Error::WriteConflict);
                }
            },
            None => {},
        }
        let version = encode_version(txn.timestamp, head, value);
        proof {
            lemma_version_round_trip(txn.timestamp, head, value@);
            self.tree.pool.lemma_pages_len();
        }
        let ghost pages1 = self.pages();
        let new_rid = match heap::insert(&mut self.tree.pool, version.as_slice()) {
            Ok(r) => r,
            Err(e) => {
                proof {
                    self.tree.pool.lemma_pages_len();
                    lemma_tail_plain_after_insert(pages1, self.pages());
                    if owed {
                        reveal(put_room);
                        reveal(put_split_room);
                    }
                    assert(!owed);
                }
                return Err(e);
            },
        };
        let ghost pages2 = self.pages();
        let ghost hp: int = match &replaced {
            Some(x) => x.0.page.0 as int,
            None => -1,
        };
        proof {
            self.tree.pool.lemma_pages_len();
            lemma_tail_plain_after_insert(pages1, pages2);
            if search_path_ordered(pages0, key@) {
                lemma_path_ranged_descends(pages0, meta_root(pages0[0]) as int, key@, None, None, pages0.len());
            }
        }
        let ghost mut touched: Option<RecordId> = None;
        match replaced {
            Some((old_rid, mut old_version)) => {
                if version_end(old_version.as_slice()) == NO_END {
                    let ghost ov = old_version@;
                    set_version_end(&mut old_version, txn.timestamp);
                    proof {
                        lemma_set_end_keeps_the_rest(ov, txn.timestamp);
                        assert(heap_record(pages2, old_rid) == heap_record(pages0, old_rid)) by {
                            let p = old_rid.page.0 as int;
                            assert(records_of(pages2[p]).subrange(0, records_of(pages0[p]).len() as int)
                                == records_of(pages0[p]));
                            assert(records_of(pages2[p])[old_rid.slot as int] == records_of(
                                pages0[p],
                            ).subrange(0, records_of(pages0[p]).len() as int)[old_rid.slot as int]);
                        }
                    }
                    match heap::overwrite(&mut self.tree.pool, old_rid, old_version.as_slice()) {
                        Ok(()) => {},
                        Err(e) => {
                            proof {
                                assert(self.pages()[0] == pages2[0]);
                                crate::heap::lemma_lookup_error(pages2, old_rid);
                                assert(!owed);
                            }
                            return Err(e);
                        },
                    }
                    proof {
                        let p = new_rid.page.0 as int;
                        if p == old_rid.page.0 {
                            assert(records_of(self.pages()[p])[new_rid.slot as int] == records_of(
                                pages2[p],
                            )[new_rid.slot as int]);
                        }
                        assert(heap_record(self.pages(), new_rid) == heap_record(pages2, new_rid));
                        assert(self.pages()[0] == pages2[0]);
                        touched = Some(old_rid);
                        lemma_slot_rewritten(pages2, self.pages(), old_rid);
                    }
                }
            },
            None => {},
        }
        let ghost pages3 = self.pages();
        proof {
            assert(forall|rid: RecordId| Some(rid) != touched ==> #[trigger] heap_record(pages3, rid) == heap_record(pages2, rid));
            assert(crate::heap::types_kept(pages2, pages3));
            assert(touched matches Some(t) ==> has_entry(pages0, key@, t) && heap_record(pages3, t) == Some(
                splice(heap_record(pages0, t)->0, OFF_END as int, le64(txn.timestamp)),
            ) && heap_record(pages0, t) is Some && version_end_of(heap_record(pages0, t)->0) == NO_END
                && heap_record(pages0, t)->0.len() >= VERSION_HEADER_SIZE);
            assert(touched is None ==> pages3 == pages2);
        }
        proof {
            assert(heap_tail_plain(pages3)) by {
                if let Some(t) = heap_tail_of(pages3[0]) {
                    assert(page_type_of(pages3[t.0 as int]) == page_type_of(pages2[t.0 as int]));
                }
            }
        }
        proof {
            if search_path_ordered(pages0, key@) && head_off_tree(pages0, key@) {
                lemma_put_keeps_path(pages0, pages2, pages3, key@, hp, value@);
            }
            if owed {
                reveal(put_room);
                reveal(put_split_room);
                assert(put_room(pages3, key@, value@) || (self.frame_count() >= 2 && put_split_room(
                    pages3,
                    key@,
                    value@,
                )));
                assert(self.tree.pages() == pages3);
            }
        }
        let r = self.tree.insert(key, new_rid);
        proof {
            let pages4 = self.pages();
            let p = new_rid.page.0 as int;
            assert(!node_ok(pages3[p]));
            assert(pages4[p] == pages3[p]);
            assert(heap_record(pages4, new_rid) == heap_record(pages3, new_rid));
            assert(heap_tail_plain(pages4)) by {
                if let Some(t) = heap_tail_of(pages4[0]) {
                    assert(pages4[t.0 as int] == pages3[t.0 as int]);
                }
            }
            if r is Ok {
                assert(fresh_version(pages4, new_rid, txn.timestamp, value@));
            }
        }
        proof {
            if r is Ok {
                lemma_put_kept(pages0, pages2, pages3, self.pages(), key@, touched, txn.timestamp);
            }
        }
        r
    }

    /// Stamps `txn`'s timestamp as the end of the newest version of `key`,
    /// so that transactions from then on no longer see it; older snapshots
    /// still do. Returns whether there was a live version to end.
    pub fn delete(&mut self, txn: &mut Txn, key: &[u8]) -> (r: Result<bool>)
        requires
            old(self).wf(),
        ensures
            final(self).wf(),
            *final(txn) == *old(txn),
            final(self).frame_count() == old(self).frame_count(),
            final(self).next_timestamp() == old(self).next_timestamp(),
            final(self).active() == old(self).active(),
            final(self).pages().len() == old(self).pages().len(),
            r is Ok ==> search_path_ordered(old(self).pages(), key@) && head_off_tree(old(self).pages(), key@)
                ==> tree_lookup(final(self).pages(), key@) == tree_lookup(old(self).pages(), key@),
            tree_lookup(old(self).pages(), key@) == Some(None::<RecordId>) ==> r == Ok::<bool, Error>(false),
            tree_lookup(old(self).pages(), key@) matches Some(Some(head)) ==> r == delete_outcome(
                old(self).pages(),
                head,
                *old(txn),
            ),
            match r {
                Ok(true) => exists|head: RecordId|
                    {
                        &&& #[trigger] has_entry(old(self).pages(), key@, head)
                        &&& ended_by(old(self).pages(), final(self).pages(), head, old(txn).timestamp)
                        &&& search_path_ordered(old(self).pages(), key@) ==> tree_lookup(old(self).pages(), key@)
                            == Some(Some(head))
                    },
                Ok(false) => final(self).pages() == old(self).pages(),
                Err(Error::WriteConflict) => {
                    &&& final(self).pages() == old(self).pages()
                    &&& exists|head: RecordId| #[trigger]
                        has_entry(old(self).pages(), key@, head) && conflicts(
                            old(self).pages(),
                            head,
                            *old(txn),
                        )
                },
                Err(e) => delete_error(e),
            },
    {
        let ghost pages0 = self.pages();
        let old_rid = match self.tree.lookup(key) {
            Ok(Some(h)) => h,
            Ok(None) => return Ok(false),
            Err(e) => return Err(e),
        };
        if old_rid.page.0 == META_PAGE {
            return Err(Error::CorruptPage(META_PAGE));
        }
        let mut old_version = match heap::get(&mut self.tree.pool, old_rid) {
            Ok(v) => v,
            Err(e) => return Err(e),
        };
        if old_version.len() < VERSION_HEADER_SIZE {
            return Err(Error::CorruptPage(old_rid.page.0));
        }
        if !txn.can_add_newer_version(
            version_begin(old_version.as_slice()),
            version_end(old_version.as_slice()),
        ) {
            proof {
                assert(conflicts(pages0, old_rid, *txn));
            }
            return Err(Error::WriteConflict);
        }
        if version_end(old_version.as_slice()) != NO_END {
            return Ok(false);
        }
        let ghost ov = old_version@;
        set_version_end(&mut old_version, txn.timestamp);
        proof {
            lemma_set_end_keeps_the_rest(ov, txn.timestamp);
        }
        match heap::overwrite(&mut self.tree.pool, old_rid, old_version.as_slice()) {
            Ok(()) => {},
            Err(e) => {
                proof {
                    assert(self.pages()[0] == pages0[0]);
                }
                return Err(e);
            },
        }
        proof {
            let pages1 = self.pages();
            assert(pages1[0] == pages0[0]);
            assert(heap_tail_plain(pages1)) by {
                if let Some(t) = heap_tail_of(pages1[0]) {
                    assert(page_type_of(pages1[t.0 as int]) == page_type_of(pages0[t.0 as int]));
                }
            }
            if search_path_ordered(pages0, key@) {
                lemma_path_ranged_descends(pages0, meta_root(pages0[0]) as int, key@, None, None, pages0.len());
                assert(tree_lookup(pages0, key@) == Some(Some(old_rid)));
                if head_off_tree(pages0, key@) {
                    lemma_lookup_kept_off_tree(pages0, pages1, key@, old_rid.page.0 as int);
                }
            }
        }
        Ok(true)
    }

    /// The transaction stops running: transactions that begin afterwards
    /// see its writes.
    pub fn commit(&mut self, txn: Txn)
        requires
            old(self).wf(),
        ensures
            final(self).wf(),
            final(self).pages() == old(self).pages(),
            final(self).frame_count() == old(self).frame_count(),
            final(self).next_timestamp() == old(self).next_timestamp(),
            final(self).active() == old(self).active().remove(txn.timestamp),
    {
        self.txns.finish(txn.timestamp);
    }

    /// Writes every page to the disk and hands the disk back.
    pub fn close(self) -> (r: Result<DiskManager>)
        requires
            self.wf(),
        ensures
            match r {
                Ok(disk) => disk@ == self.pages(),
                Err(_) => false,
            },
    {
        let mut tree = self.tree;
        let _ = tree.pool.flush_all();
        Ok(tree.pool.into_disk())
    }
}

} // verus!
