//! Insertion into the B+tree: into the leaf that the key leads to, with
//! splits that carry a separator and a new right sibling up to the parent,
//! and a new root when the old root splits.
use crate::btree::node::{append_entries, child_at_spec, entry_bytes, entry_header, internal_entry, NO_PAGE, encode_internal_entry, encode_leaf_entry, is_internal_page, is_leaf_page, leaf_entry, leaf_rid, lemma_internal_entry, lemma_leaf_entry, node_key, node_ok, split_point, CHILD_SIZE, RID_SIZE};
use crate::btree::key::{key_le, key_lt, lemma_le_lt, lemma_lt_le, lemma_key_lt_asymmetric, lemma_key_lt_irreflexive, lemma_key_lt_total, lemma_key_lt_transitive};
use crate::btree::node::{entries_size, keys_sorted, lemma_entries_size_bound, lemma_entries_size_grows, node_keys};
use crate::btree::delete::{law_leaf_update_keeps_valid, law_valid_tree_paths, tree_valid};
use crate::btree::tree::{apart, lemma_child_bound_exists, lemma_descend_more_fuel, search_path_ordered, tree_lookup, lemma_path_ranged_descends, lemma_descend_agree, lemma_on_path_ordered, lookup_from, on_path, ordered_node, path_ranged, children_set, next_on_path, routes, leaf_lands, above, below, child_bound, child_hi, child_index, child_lo, keys_within, strictly_above, descend, lemma_child_bound_unique, lemma_leaf_find_at, leaf_find, leaf_updated, fetch_node, has_entry, leaf_has, leaf_page, lemma_frames_push, lemma_frames_trans, lemma_has_entry_kept, lemma_leaves_kept_update, lemma_nodes_frame_refl, lemma_nodes_frame_update, leaves_kept, nodes_frame, pinned_alone, release, tree_ready, frame_pid, corrupt_error, BTree};
use crate::buffer::{BufferPool, FrameId};
use crate::error::{Error, Result};
use crate::page::meta::{meta_root, meta_valid};
use crate::page::slotted::{opt_len, total_len, HEADER_SIZE, free_bytes_of, link_of, slotted_wf, lemma_record_len, page_ok, pages_ok, records_of, slot_count_of, MAX_RECORD, MAX_SLOTS, SLOT_SIZE};
use crate::page::{le_u64, lemma_page_len, zero_page, Page, PageId, RecordId, PAGE_SIZE};
use vstd::prelude::*;

verus! {

broadcast use lemma_page_len;

/// The pool as the tree wants it, but for frame `f`, which holds one pin.
pub open spec fn ready_but_pinned(pool: &BufferPool, f: int) -> bool {
    &&& pool.wf()
    &&& pinned_alone(pool, f)
    &&& pool.pages().len() >= 1
    &&& pages_ok(pool.pages())
    &&& pool.frame_count() >= 1
    &&& meta_valid(pool.pages()[0])
}

/// A split hands up a separator short enough for a small internal entry.
pub open spec fn split_small(split: Option<(Vec<u8>, PageId)>) -> bool {
    match split {
        Some(x) => x.0@.len() + CHILD_SIZE <= small_entry(),
        None => true,
    }
}

/// What a split hands the parent: a separator short enough for an entry of
/// an internal node.
pub open spec fn split_ok(split: Option<(Vec<u8>, PageId)>) -> bool {
    match split {
        Some(x) => x.0@.len() + CHILD_SIZE <= MAX_RECORD,
        None => true,
    }
}

/// A leaf entry whose record id is replaced keeps its key; lookups find the
/// new record id under that key and the rest as before.
proof fn lemma_leaf_replaced(s: Seq<u8>, t: Seq<u8>, slot: int, key: Seq<u8>, rid: RecordId)
    requires
        node_ok(s),
        is_leaf_page(s),
        keys_sorted(node_keys(s)),
        0 <= slot < slot_count_of(s),
        node_key(s, slot) == key,
        node_ok(t),
        is_leaf_page(t),
        slot_count_of(t) == slot_count_of(s),
        node_keys(t) == node_keys(s),
        leaf_rid(t, slot) == rid,
        forall|i: int| 0 <= i < slot_count_of(s) && i != slot ==> #[trigger] records_of(t)[i] == records_of(s)[i],
    ensures
        keys_sorted(node_keys(t)),
        forall|k: Seq<u8>|
            #[trigger] leaf_find(t, k) == if k == key {
                Some(rid)
            } else {
                leaf_find(s, k)
            },
{
    assert forall|i: int| 0 <= i < slot_count_of(t) implies #[trigger] node_key(t, i) == node_key(s, i) by {
        assert(node_keys(t)[i] == node_keys(s)[i]);
    }
    assert forall|k: Seq<u8>|
        #[trigger] leaf_find(t, k) == if k == key {
            Some(rid)
        } else {
            leaf_find(s, k)
        } by {
        if k == key {
            lemma_leaf_find_at(t, key, slot);
        } else if exists|i: int| 0 <= i < slot_count_of(s) && #[trigger] node_key(s, i) == k {
            let i = choose|i: int| 0 <= i < slot_count_of(s) && #[trigger] node_key(s, i) == k;
            lemma_leaf_find_at(s, k, i);
            lemma_leaf_find_at(t, k, i);
            assert(records_of(t)[i] == records_of(s)[i]);
        } else {
            assert forall|i: int| 0 <= i < slot_count_of(t) implies #[trigger] node_key(t, i) != k by {
                assert(node_key(t, i) == node_key(s, i));
            }
        }
    }
}

/// A leaf entry put in where its key belongs keeps the keys in order;
/// lookups find it under its key and the rest as before.
proof fn lemma_leaf_inserted(s: Seq<u8>, t: Seq<u8>, slot: int, key: Seq<u8>, rid: RecordId)
    requires
        node_ok(s),
        is_leaf_page(s),
        keys_sorted(node_keys(s)),
        0 <= slot <= slot_count_of(s),
        forall|i: int| 0 <= i < slot ==> key_lt(#[trigger] node_key(s, i), key),
        forall|i: int| slot <= i < slot_count_of(s) ==> key_lt(key, #[trigger] node_key(s, i)),
        node_ok(t),
        is_leaf_page(t),
        records_of(t) == records_of(s).insert(slot, Some(leaf_entry(rid, key))),
    ensures
        keys_sorted(node_keys(t)),
        forall|k: Seq<u8>|
            #[trigger] leaf_find(t, k) == if k == key {
                Some(rid)
            } else {
                leaf_find(s, k)
            },
{
    lemma_leaf_entry(rid, key);
    let n = slot_count_of(s) as int;
    assert(slot_count_of(t) == n + 1) by {
        assert(records_of(t).len() == n + 1);
    }
    assert forall|i: int| 0 <= i < slot implies #[trigger] node_key(t, i) == node_key(s, i) && leaf_rid(t, i) == leaf_rid(s, i) by {
        assert(records_of(t)[i] == records_of(s)[i]);
    }
    assert forall|i: int| slot < i <= n implies #[trigger] node_key(t, i) == node_key(s, i - 1) && leaf_rid(t, i) == leaf_rid(s, i - 1) by {
        assert(records_of(t)[i] == records_of(s)[i - 1]);
    }
    assert(records_of(t)[slot] == Some(leaf_entry(rid, key)));
    assert(node_key(t, slot) == key);
    assert(leaf_rid(t, slot) == rid);
    assert(keys_sorted(node_keys(t))) by {
        assert forall|i: int, j: int| 0 <= i < j < node_keys(t).len() implies key_lt(
            #[trigger] node_keys(t)[i],
            #[trigger] node_keys(t)[j],
        ) by {
            let ki = node_keys(t)[i];
            let kj = node_keys(t)[j];
            assert(ki == node_key(t, i));
            assert(kj == node_key(t, j));
            if j < slot {
                assert(key_lt(node_keys(s)[i], node_keys(s)[j]));
            } else if j == slot {
            } else if i < slot {
                lemma_key_lt_transitive(node_key(s, i), key, node_key(s, j - 1));
            } else if i == slot {
            } else {
                assert(key_lt(node_keys(s)[i - 1], node_keys(s)[j - 1]));
            }
        }
    }
    assert forall|k: Seq<u8>|
        #[trigger] leaf_find(t, k) == if k == key {
            Some(rid)
        } else {
            leaf_find(s, k)
        } by {
        if k == key {
            lemma_leaf_find_at(t, key, slot);
        } else if exists|i: int| 0 <= i < n && #[trigger] node_key(s, i) == k {
            let i = choose|i: int| 0 <= i < n && #[trigger] node_key(s, i) == k;
            lemma_leaf_find_at(s, k, i);
            if i < slot {
                lemma_leaf_find_at(t, k, i);
            } else {
                lemma_leaf_find_at(t, k, i + 1);
            }
        } else {
            assert forall|i: int| 0 <= i < n + 1 implies #[trigger] node_key(t, i) != k by {
                if i < slot {
                    assert(node_key(t, i) == node_key(s, i));
                } else if i > slot {
                    assert(node_key(t, i) == node_key(s, i - 1));
                }
            }
        }
    }
}

/// The key of an entry whose header takes `h` bytes.
pub open spec fn entry_key(e: Seq<u8>, h: int) -> Seq<u8> {
    e.subrange(h, e.len() as int)
}

/// Entries in strictly increasing order of their keys.
pub open spec fn entries_sorted(es: Seq<Seq<u8>>, h: int) -> bool {
    forall|i: int, j: int|
        0 <= i < j < es.len() ==> key_lt(#[trigger] entry_key(es[i], h), #[trigger] entry_key(es[j], h))
}

/// Node `t` holds the entries `es[off..]`, as many as it has slots.
pub open spec fn holds_run(t: Seq<u8>, es: Seq<Seq<u8>>, off: int) -> bool {
    &&& 0 <= off
    &&& off + slot_count_of(t) <= es.len()
    &&& forall|i: int| 0 <= i < slot_count_of(t) ==> #[trigger] records_of(t)[i] == Some(es[off + i])
}

/// `d` is where `key` goes among the keys of the entries.
pub open spec fn fits_at(es: Seq<Seq<u8>>, h: int, key: Seq<u8>, d: int) -> bool {
    &&& 0 <= d <= es.len()
    &&& forall|i: int| 0 <= i < d ==> key_le(#[trigger] entry_key(es[i], h), key)
    &&& forall|i: int| d <= i < es.len() ==> key_lt(key, #[trigger] entry_key(es[i], h))
}

/// Child `d` of a run of internal entries followed by the rightmost child
/// `link`.
pub open spec fn run_child(es: Seq<Seq<u8>>, link: u64, d: int) -> u64 {
    if d == es.len() {
        link
    } else {
        le_u64(es[d], 0)
    }
}

/// The keys of a node that holds a run of entries are the entries' keys,
/// in order when theirs are.
proof fn lemma_run_keys(t: Seq<u8>, es: Seq<Seq<u8>>, off: int)
    requires
        node_ok(t),
        holds_run(t, es, off),
    ensures
        forall|i: int|
            0 <= i < slot_count_of(t) ==> #[trigger] node_key(t, i) == entry_key(es[off + i], entry_header(t)),
        entries_sorted(es, entry_header(t)) ==> keys_sorted(node_keys(t)),
{
    let h = entry_header(t);
    assert forall|i: int| 0 <= i < slot_count_of(t) implies #[trigger] node_key(t, i) == entry_key(es[off + i], h) by {
        assert(records_of(t)[i] == Some(es[off + i]));
    }
    if entries_sorted(es, h) {
        assert forall|i: int, j: int| 0 <= i < j < node_keys(t).len() implies key_lt(
            #[trigger] node_keys(t)[i],
            #[trigger] node_keys(t)[j],
        ) by {
            assert(node_keys(t)[i] == node_key(t, i));
            assert(node_keys(t)[j] == node_key(t, j));
            assert(key_lt(entry_key(es[off + i], h), entry_key(es[off + j], h)));
        }
    }
}

/// An internal node that holds a run of entries sends a key where the run
/// places it.
proof fn lemma_run_child(t: Seq<u8>, es: Seq<Seq<u8>>, off: int, link: u64, key: Seq<u8>, d: int)
    requires
        node_ok(t),
        is_internal_page(t),
        holds_run(t, es, off),
        fits_at(es, CHILD_SIZE as int, key, d),
        off <= d <= off + slot_count_of(t),
        link_of(t) == run_child(es, link, off + slot_count_of(t)),
    ensures
        child_index(t, key) == d - off,
        child_at_spec(t, d - off) == run_child(es, link, d),
{
    lemma_run_keys(t, es, off);
    let m = slot_count_of(t);
    let h = CHILD_SIZE as int;
    assert(entry_header(t) == h);
    assert(child_bound(t, key, d - off)) by {
        assert forall|i: int| 0 <= i < d - off implies key_le(#[trigger] node_key(t, i), key) by {
            assert(node_key(t, i) == entry_key(es[off + i], h));
        }
        assert forall|i: int| d - off <= i < m implies key_lt(key, #[trigger] node_key(t, i)) by {
            assert(node_key(t, i) == entry_key(es[off + i], h));
        }
    }
    lemma_child_bound_unique(t, key, d - off);
    if d - off < m {
        assert(records_of(t)[d - off] == Some(es[d]));
    }
}

/// The keys of a node with one more key put in at `c`, between its
/// neighbours, are in order and stay within the node's bounds.
proof fn lemma_inserted_sorted(s: Seq<u8>, es: Seq<Seq<u8>>, c: int, x: Seq<u8>, h: int, lo: Option<Seq<u8>>, hi: Option<Seq<u8>>)
    requires
        keys_sorted(node_keys(s)),
        keys_within(s, lo, hi),
        0 <= c <= slot_count_of(s),
        es.len() == slot_count_of(s) + 1,
        forall|i: int| 0 <= i < c ==> #[trigger] entry_key(es[i], h) == node_key(s, i),
        entry_key(es[c], h) == x,
        forall|i: int| c < i < es.len() ==> #[trigger] entry_key(es[i], h) == node_key(s, i - 1),
        c > 0 ==> key_lt(node_key(s, c - 1), x),
        c < slot_count_of(s) ==> key_lt(x, node_key(s, c)),
        above(x, lo),
        below(x, hi),
    ensures
        entries_sorted(es, h),
        forall|i: int|
            0 <= i < es.len() ==> above(#[trigger] entry_key(es[i], h), lo) && below(entry_key(es[i], h), hi),
{
    let n = slot_count_of(s) as int;
    assert forall|i: int, j: int| 0 <= i < j < es.len() implies key_lt(
        #[trigger] entry_key(es[i], h),
        #[trigger] entry_key(es[j], h),
    ) by {
        if j < c {
            assert(key_lt(node_keys(s)[i], node_keys(s)[j]));
        } else if j == c {
            if i < c - 1 {
                assert(key_lt(node_keys(s)[i], node_keys(s)[c - 1]));
                lemma_key_lt_transitive(node_key(s, i), node_key(s, c - 1), x);
            }
        } else if i < c {
            assert(key_lt(node_keys(s)[i], node_keys(s)[j - 1]));
        } else if i == c {
            if j - 1 > c {
                assert(key_lt(node_keys(s)[c], node_keys(s)[j - 1]));
                lemma_key_lt_transitive(x, node_key(s, c), node_key(s, j - 1));
            }
        } else {
            assert(key_lt(node_keys(s)[i - 1], node_keys(s)[j - 1]));
        }
    }
    assert forall|i: int| 0 <= i < es.len() implies above(#[trigger] entry_key(es[i], h), lo) && below(
        entry_key(es[i], h),
        hi,
    ) by {
        if i < c {
            assert(above(node_key(s, i), lo) && below(node_key(s, i), hi));
        } else if i > c {
            assert(above(node_key(s, i - 1), lo) && below(node_key(s, i - 1), hi));
        }
    }
}

/// The least key of sorted entries within `[lo, hi)`, the one at `mid`
/// past the first, lies strictly above `lo`.
proof fn lemma_split_key_bounds(es: Seq<Seq<u8>>, h: int, mid: int, lo: Option<Seq<u8>>, hi: Option<Seq<u8>>)
    requires
        entries_sorted(es, h),
        1 <= mid < es.len(),
        forall|i: int|
            0 <= i < es.len() ==> above(#[trigger] entry_key(es[i], h), lo) && below(entry_key(es[i], h), hi),
    ensures
        strictly_above(entry_key(es[mid], h), lo),
        below(entry_key(es[mid], h), hi),
{
    assert(key_lt(entry_key(es[0], h), entry_key(es[mid], h)));
    assert(above(entry_key(es[0], h), lo));
    assert(below(entry_key(es[mid], h), hi));
    if let Some(l) = lo {
        lemma_le_lt(l, entry_key(es[0], h), entry_key(es[mid], h));
    }
}

/// A separator that lies strictly between the neighbours of child `c` goes
/// in at position `c`.
proof fn lemma_separator_position(s: Seq<u8>, sep: Seq<u8>, pos: int, found: bool, c: int, lo: Option<Seq<u8>>, hi: Option<Seq<u8>>)
    requires
        keys_sorted(node_keys(s)),
        0 <= c <= slot_count_of(s),
        0 <= pos <= slot_count_of(s),
        strictly_above(sep, child_lo(s, c, lo)),
        below(sep, child_hi(s, c, hi)),
        found ==> pos < slot_count_of(s) && node_key(s, pos) == sep,
        forall|i: int| 0 <= i < pos ==> key_lt(#[trigger] node_key(s, i), sep),
        !found ==> forall|i: int| pos <= i < slot_count_of(s) ==> key_lt(sep, #[trigger] node_key(s, i)),
    ensures
        !found,
        pos == c,
{
    if found {
        if pos < c {
            if pos < c - 1 {
                assert(key_lt(node_keys(s)[pos], node_keys(s)[c - 1]));
            }
            assert(key_le(sep, node_key(s, c - 1)));
            lemma_key_lt_asymmetric(sep, node_key(s, c - 1));
            lemma_key_lt_irreflexive(sep);
        } else {
            if pos > c {
                assert(key_lt(node_keys(s)[c], node_keys(s)[pos]));
            }
            assert(key_le(node_key(s, c), sep));
            lemma_key_lt_asymmetric(sep, node_key(s, c));
            lemma_key_lt_irreflexive(sep);
        }
    } else if pos < c {
        assert(key_lt(sep, node_key(s, c - 1)));
        lemma_key_lt_asymmetric(sep, node_key(s, c - 1));
    } else if pos > c {
        assert(key_lt(node_key(s, c), sep));
        lemma_key_lt_asymmetric(sep, node_key(s, c));
    }
}

/// The entries of an internal node with the separator and the new sibling
/// put in after child `c`: in order, within the node's bounds, and placing
/// `key` at the child that now holds it.
proof fn lemma_parent_entries(
    s: Seq<u8>,
    es: Seq<Seq<u8>>,
    c: int,
    child: u64,
    sep: Seq<u8>,
    right: u64,
    link: u64,
    key: Seq<u8>,
    lo: Option<Seq<u8>>,
    hi: Option<Seq<u8>>,
)
    requires
        node_ok(s),
        is_internal_page(s),
        keys_sorted(node_keys(s)),
        keys_within(s, lo, hi),
        child_bound(s, key, c),
        strictly_above(sep, child_lo(s, c, lo)),
        below(sep, child_hi(s, c, hi)),
        es.len() == slot_count_of(s) + 1,
        forall|i: int| 0 <= i < c ==> #[trigger] es[i] == entry_bytes(s, i),
        es[c] == internal_entry(child, sep),
        c + 1 < es.len() ==> es[c + 1] == internal_entry(right, node_key(s, c)),
        forall|i: int| c + 1 < i < es.len() ==> #[trigger] es[i] == entry_bytes(s, i - 1),
        c + 1 == es.len() ==> link == right,
    ensures
        children_set(s) && child != NO_PAGE && right != NO_PAGE ==> forall|i: int|
            0 <= i < es.len() ==> #[trigger] le_u64(es[i], 0) != NO_PAGE,
        entries_sorted(es, CHILD_SIZE as int),
        forall|i: int|
            0 <= i < es.len() ==> above(#[trigger] entry_key(es[i], CHILD_SIZE as int), lo) && below(
                entry_key(es[i], CHILD_SIZE as int),
                hi,
            ),
        fits_at(
            es,
            CHILD_SIZE as int,
            key,
            if key_lt(key, sep) {
                c
            } else {
                c + 1
            },
        ),
        run_child(
            es,
            link,
            if key_lt(key, sep) {
                c
            } else {
                c + 1
            },
        ) == if key_lt(key, sep) {
            child
        } else {
            right
        },
{
    let h = CHILD_SIZE as int;
    let n = slot_count_of(s) as int;
    lemma_internal_entry(child, sep);
    assert(entry_key(es[c], h) == sep);
    assert(entry_header(s) == h);
    assert forall|i: int| 0 <= i < c implies #[trigger] entry_key(es[i], h) == node_key(s, i) by {
        assert(es[i] == entry_bytes(s, i));
    }
    if c < n {
        lemma_internal_entry(right, node_key(s, c));
    }
    assert forall|i: int| c < i < es.len() implies #[trigger] entry_key(es[i], h) == node_key(s, i - 1) by {
        if i > c + 1 {
            assert(es[i] == entry_bytes(s, i - 1));
        }
    }
    if children_set(s) && child != NO_PAGE && right != NO_PAGE {
        assert forall|i: int| 0 <= i < es.len() implies #[trigger] le_u64(es[i], 0) != NO_PAGE by {
            if i < c {
                assert(es[i] == entry_bytes(s, i));
                assert(crate::btree::node::entry_child(s, i) != NO_PAGE);
            } else if i > c + 1 {
                assert(es[i] == entry_bytes(s, i - 1));
                assert(crate::btree::node::entry_child(s, i - 1) != NO_PAGE);
            }
        }
    }
    assert(above(sep, lo)) by {
        if c > 0 {
            assert(above(node_key(s, c - 1), lo));
            if let Some(l) = lo {
                lemma_le_lt(l, node_key(s, c - 1), sep);
            }
        }
    }
    assert(below(sep, hi)) by {
        if c < n {
            assert(below(node_key(s, c), hi));
            if let Some(u) = hi {
                lemma_key_lt_transitive(sep, node_key(s, c), u);
            }
        }
    }
    lemma_inserted_sorted(s, es, c, sep, h, lo, hi);
    if key_lt(key, sep) {
        assert forall|i: int| c <= i < es.len() implies key_lt(key, #[trigger] entry_key(es[i], h)) by {
            if i > c {
                assert(key_lt(key, node_key(s, i - 1)));
            }
        }
    } else {
        lemma_key_lt_total(key, sep);
        assert forall|i: int| 0 <= i < c + 1 implies key_le(#[trigger] entry_key(es[i], h), key) by {
            if i < c {
                assert(key_le(node_key(s, i), key));
            }
        }
        assert forall|i: int| c + 1 <= i < es.len() implies key_lt(key, #[trigger] entry_key(es[i], h)) by {
            assert(key_lt(key, node_key(s, i - 1)));
        }
    }
}

/// `slot` is where `key` goes in leaf `s`, whose keys are in order and lie
/// in `[lo, hi)` with `key`.
pub open spec fn key_slot_in(s: Seq<u8>, key: Seq<u8>, slot: int, lo: Option<Seq<u8>>, hi: Option<Seq<u8>>) -> bool {
    &&& keys_sorted(node_keys(s))
    &&& keys_within(s, lo, hi)
    &&& above(key, lo)
    &&& below(key, hi)
    &&& forall|i: int| 0 <= i < slot ==> key_lt(#[trigger] node_key(s, i), key)
    &&& forall|i: int| slot <= i < slot_count_of(s) ==> key_lt(key, #[trigger] node_key(s, i))
}

/// After an insert into leaf `p`, `s` before: the leaf, or the half of it
/// that `key` sorts into when it split, holds `key` with `rid`; every other
/// key within `[lo, hi)` finds in the leaf or half it sorts into what it
/// found in `s`; a separator lies strictly above `lo` and below `hi`.
pub open spec fn leaf_split_lands(pages: Seq<Seq<u8>>, p: int, s: Seq<u8>, key: Seq<u8>, rid: RecordId, split: Option<(Vec<u8>, PageId)>, lo: Option<Seq<u8>>, hi: Option<Seq<u8>>) -> bool {
    &&& leaf_lands(pages, target_of(split, p, key), key, rid)
    &&& split matches Some(x) ==> strictly_above(x.0@, lo) && below(x.0@, hi)
    &&& forall|k: Seq<u8>|
        k != key && above(k, lo) && below(k, hi) ==> #[trigger] leaf_keeps(
            pages,
            target_of(split, p, k),
            k,
            leaf_find(s, k),
        )
}

/// Page `t` is an ordered leaf in which looking `k` up finds `found`.
pub open spec fn leaf_keeps(pages: Seq<Seq<u8>>, t: int, k: Seq<u8>, found: Option<RecordId>) -> bool {
    &&& ordered_node(pages, t)
    &&& is_leaf_page(pages[t])
    &&& leaf_find(pages[t], k) == found
}

/// A full leaf split around `m` after `key` went in at `sl`: both halves
/// keep their keys in order, the separator -- the right half's first key --
/// lies strictly above `lo` and below `hi`, and the half that `key` sorts
/// into by the separator holds it.
proof fn lemma_leaf_halves(
    s: Seq<u8>,
    es: Seq<Seq<u8>>,
    sl: int,
    m: int,
    key: Seq<u8>,
    rid: RecordId,
    lp: Seq<u8>,
    rp: Seq<u8>,
    sep: Seq<u8>,
    lo: Option<Seq<u8>>,
    hi: Option<Seq<u8>>,
)
    requires
        node_ok(s),
        is_leaf_page(s),
        key_slot_in(s, key, sl, lo, hi),
        0 <= sl <= slot_count_of(s),
        es.len() == slot_count_of(s) + 1,
        forall|i: int| 0 <= i < sl ==> #[trigger] records_of(s)[i] == Some(es[i]),
        es[sl] == leaf_entry(rid, key),
        forall|i: int| sl < i < es.len() ==> #[trigger] records_of(s)[i - 1] == Some(es[i]),
        1 <= m < es.len(),
        node_ok(lp),
        is_leaf_page(lp),
        slot_count_of(lp) == m,
        holds_run(lp, es, 0),
        node_ok(rp),
        is_leaf_page(rp),
        slot_count_of(rp) == es.len() - m,
        holds_run(rp, es, m),
        sep == node_key(rp, 0),
    ensures
        keys_sorted(node_keys(lp)),
        keys_sorted(node_keys(rp)),
        strictly_above(sep, lo),
        below(sep, hi),
        key_lt(key, sep) ==> leaf_find(lp, key) == Some(rid),
        !key_lt(key, sep) ==> leaf_find(rp, key) == Some(rid),
        forall|k: Seq<u8>|
            k != key ==> leaf_find(
                if key_lt(k, sep) {
                    lp
                } else {
                    rp
                },
                k,
            ) == #[trigger] leaf_find(s, k),
{
    let h = RID_SIZE as int;
    assert(entry_header(s) == h);
    assert forall|i: int| 0 <= i < sl implies #[trigger] entry_key(es[i], h) == node_key(s, i) by {
        assert(records_of(s)[i] == Some(es[i]));
    }
    lemma_leaf_entry(rid, key);
    assert(entry_key(es[sl], h) == key);
    assert forall|i: int| sl < i < es.len() implies #[trigger] entry_key(es[i], h) == node_key(s, i - 1) by {
        assert(records_of(s)[i - 1] == Some(es[i]));
    }
    lemma_inserted_sorted(s, es, sl, key, h, lo, hi);
    lemma_run_keys(lp, es, 0);
    lemma_run_keys(rp, es, m);
    assert(sep == entry_key(es[m], h));
    lemma_split_key_bounds(es, h, m, lo, hi);
    if sl < m {
        assert(key_lt(entry_key(es[sl], h), entry_key(es[m], h)));
        assert(node_key(lp, sl) == key);
        assert(records_of(lp)[sl] == Some(es[sl]));
        lemma_leaf_find_at(lp, key, sl);
    } else {
        if sl == m {
            lemma_key_lt_irreflexive(key);
        } else {
            assert(key_lt(entry_key(es[m], h), entry_key(es[sl], h)));
            lemma_key_lt_asymmetric(key, sep);
        }
        assert(node_key(rp, sl - m) == key);
        assert(records_of(rp)[sl - m] == Some(es[sl]));
        lemma_leaf_find_at(rp, key, sl - m);
    }
    assert forall|k: Seq<u8>| k != key implies leaf_find(
        if key_lt(k, sep) {
            lp
        } else {
            rp
        },
        k,
    ) == #[trigger] leaf_find(s, k) by {
        lemma_leaf_half_finds(s, es, sl, m, key, lp, rp, sep, k);
    }
}

/// A key other than the one put in finds, in the half of a split leaf that
/// it sorts into, what it found in the leaf before.
proof fn lemma_leaf_half_finds(
    s: Seq<u8>,
    es: Seq<Seq<u8>>,
    sl: int,
    m: int,
    key: Seq<u8>,
    lp: Seq<u8>,
    rp: Seq<u8>,
    sep: Seq<u8>,
    k: Seq<u8>,
)
    requires
        node_ok(s),
        is_leaf_page(s),
        keys_sorted(node_keys(s)),
        0 <= sl <= slot_count_of(s),
        es.len() == slot_count_of(s) + 1,
        forall|i: int| 0 <= i < sl ==> #[trigger] records_of(s)[i] == Some(es[i]),
        entry_key(es[sl], RID_SIZE as int) == key,
        forall|i: int| sl < i < es.len() ==> #[trigger] records_of(s)[i - 1] == Some(es[i]),
        entries_sorted(es, RID_SIZE as int),
        1 <= m < es.len(),
        node_ok(lp),
        is_leaf_page(lp),
        slot_count_of(lp) == m,
        holds_run(lp, es, 0),
        node_ok(rp),
        is_leaf_page(rp),
        slot_count_of(rp) == es.len() - m,
        holds_run(rp, es, m),
        sep == entry_key(es[m], RID_SIZE as int),
        keys_sorted(node_keys(lp)),
        keys_sorted(node_keys(rp)),
        k != key,
    ensures
        leaf_find(
            if key_lt(k, sep) {
                lp
            } else {
                rp
            },
            k,
        ) == leaf_find(s, k),
{
    let h = RID_SIZE as int;
    let n = slot_count_of(s) as int;
    assert(entry_header(s) == h);
    lemma_run_keys(lp, es, 0);
    lemma_run_keys(rp, es, m);
    // the index in `es` of entry `i` of `s`
    assert forall|i: int| 0 <= i < n implies #[trigger] node_key(s, i) == entry_key(
        es[if i < sl {
            i
        } else {
            i + 1
        }],
        h,
    ) && leaf_rid(s, i) == crate::page::record_id_at(
        es[if i < sl {
            i
        } else {
            i + 1
        }],
        0,
    ) by {
        if i < sl {
            assert(records_of(s)[i] == Some(es[i]));
        } else {
            assert(records_of(s)[(i + 1) - 1] == Some(es[i + 1]));
        }
    }
    if exists|i: int| 0 <= i < n && #[trigger] node_key(s, i) == k {
        let i = choose|i: int| 0 <= i < n && #[trigger] node_key(s, i) == k;
        lemma_leaf_find_at(s, k, i);
        let j = if i < sl {
            i
        } else {
            i + 1
        };
        assert(entry_key(es[j], h) == k);
        if key_lt(k, sep) {
            if j >= m {
                if j > m {
                    assert(key_lt(entry_key(es[m], h), entry_key(es[j], h)));
                    lemma_key_lt_asymmetric(k, sep);
                } else {
                    lemma_key_lt_irreflexive(k);
                }
            }
            assert(records_of(lp)[j] == Some(es[j]));
            lemma_leaf_find_at(lp, k, j);
        } else {
            if j < m {
                assert(key_lt(entry_key(es[j], h), entry_key(es[m], h)));
            }
            assert(records_of(rp)[j - m] == Some(es[j]));
            lemma_leaf_find_at(rp, k, j - m);
        }
    } else {
        assert forall|j: int| 0 <= j < es.len() implies #[trigger] entry_key(es[j], h) != k by {
            if j < sl {
                assert(node_key(s, j) == entry_key(es[j], h));
            } else if j > sl {
                assert(node_key(s, j - 1) == entry_key(es[j], h));
            }
        }
        assert forall|j: int| 0 <= j < slot_count_of(lp) implies #[trigger] node_key(lp, j) != k by {
            assert(node_key(lp, j) == entry_key(es[0 + j], h));
        }
        assert forall|j: int| 0 <= j < slot_count_of(rp) implies #[trigger] node_key(rp, j) != k by {
            assert(node_key(rp, j) == entry_key(es[m + j], h));
        }
    }
}

/// Node `s` can take the separator `sep` from its child `child`: `s` is an
/// ordered internal node with its keys within `[lo, hi)` and every child
/// set, `key` goes under `child`, and `sep` lies strictly between that
/// child's bounds.
pub open spec fn separator_fits(s: Seq<u8>, child: u64, sep: Seq<u8>, key: Seq<u8>, lo: Option<Seq<u8>>, hi: Option<Seq<u8>>) -> bool {
    let c = child_index(s, key);
    &&& node_ok(s)
    &&& is_internal_page(s)
    &&& keys_sorted(node_keys(s))
    &&& keys_within(s, lo, hi)
    &&& children_set(s)
    &&& child_bound(s, key, c)
    &&& child_at_spec(s, c) == child
    &&& strictly_above(sep, child_lo(s, c, lo))
    &&& below(sep, child_hi(s, c, hi))
}

/// After the separator `sep` of child `child_index(s, key)` of node `s`,
/// with its new sibling `right`, went into node `p`: for every key within
/// `[lo, hi)`, the node, or the half of it that the key sorts into when it
/// split, is an ordered internal node that sends the key on to the child it
/// now belongs under; a separator lies strictly above `lo` and below `hi`.
pub open spec fn parent_routes(pages: Seq<Seq<u8>>, p: int, s: Seq<u8>, key: Seq<u8>, sep: Seq<u8>, right: u64, split: Option<(Vec<u8>, PageId)>, lo: Option<Seq<u8>>, hi: Option<Seq<u8>>) -> bool {
    &&& forall|k: Seq<u8>|
        above(k, lo) && below(k, hi) ==> routes(
            pages,
            target_of(split, p, k),
            k,
            #[trigger] new_child_for(s, key, sep, right, k),
        )
    &&& split matches Some(x) ==> strictly_above(x.0@, lo) && below(x.0@, hi)
}

/// What node `p`, `s` before, is after an insert below it whose child
/// returned `below_split` and whose node returned `split`: the same node
/// when the child did not split, else one that routes every key as
/// [`parent_routes`] says.
pub open spec fn parent_after(pages: Seq<Seq<u8>>, p: int, s: Seq<u8>, key: Seq<u8>, below_split: Option<(Vec<u8>, PageId)>, split: Option<(Vec<u8>, PageId)>, lo: Option<Seq<u8>>, hi: Option<Seq<u8>>) -> bool {
    match below_split {
        None => split is None && pages[p] == s,
        Some(x) => parent_routes(pages, p, s, key, x.0@, x.1.0, split, lo, hi),
    }
}

/// The child of node `s` that `k` belongs under once child
/// `child_index(s, key)` split at `sep` and gained the sibling `right`.
pub open spec fn new_child_for(s: Seq<u8>, key: Seq<u8>, sep: Seq<u8>, right: u64, k: Seq<u8>) -> int {
    let c = child_index(s, key);
    if child_index(s, k) != c {
        child_at_spec(s, child_index(s, k)) as int
    } else if key_lt(k, sep) {
        child_at_spec(s, c) as int
    } else {
        right as int
    }
}

/// Where `k` goes among the entries of node `s` with the separator put in
/// after child `child_index(s, key)`.
pub open spec fn route_index(s: Seq<u8>, key: Seq<u8>, sep: Seq<u8>, k: Seq<u8>) -> int {
    let c = child_index(s, key);
    let ck = child_index(s, k);
    if ck < c {
        ck
    } else if ck > c {
        ck + 1
    } else if key_lt(k, sep) {
        c
    } else {
        c + 1
    }
}

/// Any key within the node's bounds finds, among the entries with the
/// separator put in, the child it now belongs under.
#[verifier::spinoff_prover]
#[verifier::rlimit(40)]
proof fn lemma_parent_route(
    s: Seq<u8>,
    es: Seq<Seq<u8>>,
    child: u64,
    sep: Seq<u8>,
    right: u64,
    link: u64,
    key: Seq<u8>,
    k: Seq<u8>,
    lo: Option<Seq<u8>>,
    hi: Option<Seq<u8>>,
)
    requires
        separator_fits(s, child, sep, key, lo, hi),
        es.len() == slot_count_of(s) + 1,
        forall|i: int| 0 <= i < child_index(s, key) ==> #[trigger] es[i] == entry_bytes(s, i),
        es[child_index(s, key)] == internal_entry(child, sep),
        child_index(s, key) + 1 < es.len() ==> es[child_index(s, key) + 1] == internal_entry(
            right,
            node_key(s, child_index(s, key)),
        ),
        forall|i: int| child_index(s, key) + 1 < i < es.len() ==> #[trigger] es[i] == entry_bytes(s, i - 1),
        child_index(s, key) + 1 == es.len() ==> link == right,
        child_index(s, key) + 1 < es.len() ==> link == link_of(s),
        above(k, lo),
        below(k, hi),
    ensures
        fits_at(es, CHILD_SIZE as int, k, route_index(s, key, sep, k)),
        run_child(es, link, route_index(s, key, sep, k)) == new_child_for(s, key, sep, right, k),
{
    let h = CHILD_SIZE as int;
    let c = child_index(s, key);
    let n = slot_count_of(s) as int;
    lemma_child_bound_exists(s, k);
    let ck = child_index(s, k);
    lemma_parent_entries(s, es, c, child, sep, right, link, key, lo, hi);
    lemma_internal_entry(child, sep);
    if c < n {
        lemma_internal_entry(right, node_key(s, c));
    }
    assert(entry_header(s) == h);
    assert forall|i: int| 0 <= i < c implies #[trigger] entry_key(es[i], h) == node_key(s, i) by {
        assert(es[i] == entry_bytes(s, i));
    }
    assert forall|i: int| c < i < es.len() implies #[trigger] entry_key(es[i], h) == node_key(s, i - 1) by {
        if i > c + 1 {
            assert(es[i] == entry_bytes(s, i - 1));
        }
    }
    let d = route_index(s, key, sep, k);
    if ck < c {
        assert(key_lt(k, sep)) by {
            assert(key_lt(k, node_key(s, ck)));
            if ck < c - 1 {
                assert(key_lt(node_keys(s)[ck], node_keys(s)[c - 1]));
                lemma_key_lt_transitive(k, node_key(s, ck), node_key(s, c - 1));
            }
            lemma_key_lt_transitive(k, node_key(s, c - 1), sep);
        }
        assert forall|i: int| d <= i < es.len() implies key_lt(k, #[trigger] entry_key(es[i], h)) by {
            if i < c {
                assert(key_lt(k, node_key(s, i)));
            } else if i > c {
                assert(key_lt(k, node_key(s, i - 1)));
            }
        }
        assert(es[ck] == entry_bytes(s, ck));
    } else if ck > c {
        assert(key_lt(sep, k)) by {
            assert(key_le(node_key(s, c), k));
            lemma_lt_le(sep, node_key(s, c), k);
        }
        assert forall|i: int| 0 <= i < d implies key_le(#[trigger] entry_key(es[i], h), k) by {
            if i < c {
                assert(key_le(node_key(s, i), k));
            } else if i > c {
                assert(key_le(node_key(s, i - 1), k));
            }
        }
        assert forall|i: int| d <= i < es.len() implies key_lt(k, #[trigger] entry_key(es[i], h)) by {
            assert(key_lt(k, node_key(s, i - 1)));
        }
        if ck < n {
            assert(es[ck + 1] == entry_bytes(s, ck));
        }
    } else {
        if key_lt(k, sep) {
            assert forall|i: int| c <= i < es.len() implies key_lt(k, #[trigger] entry_key(es[i], h)) by {
                if i > c {
                    assert(key_lt(k, node_key(s, i - 1)));
                }
            }
        } else {
            lemma_key_lt_total(k, sep);
            assert forall|i: int| 0 <= i < c + 1 implies key_le(#[trigger] entry_key(es[i], h), k) by {
                if i < c {
                    assert(key_le(node_key(s, i), k));
                }
            }
            assert forall|i: int| c + 1 <= i < es.len() implies key_lt(k, #[trigger] entry_key(es[i], h)) by {
                assert(key_lt(k, node_key(s, i - 1)));
            }
        }
    }
}

/// A full internal node split around `mid` after the separator went in:
/// both halves are nodes with their keys in order, the promoted key lies
/// strictly above `lo` and below `hi`, and the half that `key` sorts into
/// by it sends `key` where the whole node would have.
proof fn lemma_internal_halves(
    s: Seq<u8>,
    es: Seq<Seq<u8>>,
    child: u64,
    sep: Seq<u8>,
    right: u64,
    link: u64,
    key: Seq<u8>,
    lo: Option<Seq<u8>>,
    hi: Option<Seq<u8>>,
    mid: int,
    lp: Seq<u8>,
    rp: Seq<u8>,
)
    requires
        separator_fits(s, child, sep, key, lo, hi),
        right != NO_PAGE,
        link != NO_PAGE,
        es.len() == slot_count_of(s) + 1,
        forall|i: int| 0 <= i < child_index(s, key) ==> #[trigger] es[i] == entry_bytes(s, i),
        es[child_index(s, key)] == internal_entry(child, sep),
        child_index(s, key) + 1 < es.len() ==> es[child_index(s, key) + 1] == internal_entry(
            right,
            node_key(s, child_index(s, key)),
        ),
        forall|i: int| child_index(s, key) + 1 < i < es.len() ==> #[trigger] es[i] == entry_bytes(s, i - 1),
        child_index(s, key) + 1 == es.len() ==> link == right,
        child_index(s, key) + 1 < es.len() ==> link == link_of(s),
        1 <= mid < es.len(),
        slotted_wf(lp),
        is_internal_page(lp),
        slot_count_of(lp) == mid,
        holds_run(lp, es, 0),
        link_of(lp) == le_u64(es[mid], 0),
        slotted_wf(rp),
        is_internal_page(rp),
        slot_count_of(rp) == es.len() - mid - 1,
        holds_run(rp, es, mid + 1),
        link_of(rp) == link,
        forall|i: int| 0 <= i < es.len() ==> CHILD_SIZE <= (#[trigger] es[i]).len(),
    ensures
        node_ok(lp),
        node_ok(rp),
        keys_sorted(node_keys(lp)),
        keys_sorted(node_keys(rp)),
        strictly_above(entry_key(es[mid], CHILD_SIZE as int), lo),
        below(entry_key(es[mid], CHILD_SIZE as int), hi),
        key_lt(key, entry_key(es[mid], CHILD_SIZE as int)) ==> next_on_path(lp, key) == (if key_lt(key, sep) {
            child
        } else {
            right
        }) as int,
        !key_lt(key, entry_key(es[mid], CHILD_SIZE as int)) ==> next_on_path(rp, key) == (if key_lt(
            key,
            sep,
        ) {
            child
        } else {
            right
        }) as int,
        forall|k: Seq<u8>|
            above(k, lo) && below(k, hi) ==> next_on_path(
                if key_lt(k, entry_key(es[mid], CHILD_SIZE as int)) {
                    lp
                } else {
                    rp
                },
                k,
            ) == #[trigger] new_child_for(s, key, sep, right, k),
{
    let h = CHILD_SIZE as int;
    let c = child_index(s, key);
    assert(child != NO_PAGE) by {
        if c < slot_count_of(s) {
            assert(crate::btree::node::entry_child(s, c) != NO_PAGE);
        }
    }
    lemma_parent_entries(s, es, c, child, sep, right, link, key, lo, hi);
    assert(le_u64(es[mid], 0) != NO_PAGE);
    assert(node_ok(lp)) by {
        assert forall|i: int| 0 <= i < slot_count_of(lp) implies (#[trigger] records_of(lp)[i]) is Some
            && records_of(lp)[i]->0.len() >= entry_header(lp) by {
            assert(records_of(lp)[i] == Some(es[0 + i]));
        }
    }
    assert(node_ok(rp)) by {
        assert forall|i: int| 0 <= i < slot_count_of(rp) implies (#[trigger] records_of(rp)[i]) is Some
            && records_of(rp)[i]->0.len() >= entry_header(rp) by {
            assert(records_of(rp)[i] == Some(es[mid + 1 + i]));
        }
    }
    lemma_run_keys(lp, es, 0);
    lemma_run_keys(rp, es, mid + 1);
    lemma_split_key_bounds(es, h, mid, lo, hi);
    let d = if key_lt(key, sep) {
        c
    } else {
        c + 1
    };
    let pk = entry_key(es[mid], h);
    if d <= mid {
        assert(key_lt(key, pk));
        lemma_run_child(lp, es, 0, link, key, d);
    } else {
        assert(key_le(pk, key));
        if key_lt(key, pk) {
            lemma_key_lt_asymmetric(key, pk);
            lemma_key_lt_irreflexive(key);
        }
        lemma_run_child(rp, es, mid + 1, link, key, d);
    }
    assert forall|k: Seq<u8>| above(k, lo) && below(k, hi) implies next_on_path(
        if key_lt(k, pk) {
            lp
        } else {
            rp
        },
        k,
    ) == #[trigger] new_child_for(s, key, sep, right, k) by {
        lemma_parent_route(s, es, child, sep, right, link, key, k, lo, hi);
        let dk = route_index(s, key, sep, k);
        if dk <= mid {
            assert(key_lt(k, pk));
            lemma_run_child(lp, es, 0, link, k, dk);
        } else {
            assert(key_le(pk, k));
            if key_lt(k, pk) {
                lemma_key_lt_asymmetric(k, pk);
                lemma_key_lt_irreflexive(k);
            }
            lemma_run_child(rp, es, mid + 1, link, k, dk);
        }
    }
}

/// An internal node that took the separator in place sends `key` where it
/// now belongs: to `child`, or to `right` when it is not below the
/// separator.
proof fn lemma_parent_in_place(
    s: Seq<u8>,
    t: Seq<u8>,
    u: Seq<u8>,
    pos: int,
    child: u64,
    sep: Seq<u8>,
    right: u64,
    key: Seq<u8>,
    lo: Option<Seq<u8>>,
    hi: Option<Seq<u8>>,
)
    requires
        separator_fits(s, child, sep, key, lo, hi),
        pos == child_index(s, key),
        is_internal_page(t),
        records_of(t) == records_of(s).insert(pos, Some(internal_entry(child, sep))),
        node_ok(u),
        is_internal_page(u),
        slot_count_of(u) == slot_count_of(s) + 1,
        pos == slot_count_of(s) ==> records_of(u) == records_of(t) && link_of(u) == right,
        pos < slot_count_of(s) ==> records_of(u) == records_of(t).update(
            pos + 1,
            Some(internal_entry(right, node_key(t, pos + 1))),
        ) && link_of(u) == link_of(s),
    ensures
        keys_sorted(node_keys(u)),
        next_on_path(u, key) == (if key_lt(key, sep) {
            child
        } else {
            right
        }) as int,
        forall|k: Seq<u8>|
            above(k, lo) && below(k, hi) ==> #[trigger] next_on_path(u, k) == new_child_for(s, key, sep, right, k),
{
    let n = slot_count_of(s) as int;
    let es = Seq::new((n + 1) as nat, |i: int| records_of(u)[i]->0);
    assert(holds_run(u, es, 0)) by {
        assert forall|i: int| 0 <= i < slot_count_of(u) implies #[trigger] records_of(u)[i] == Some(es[0 + i]) by {
            assert(records_of(u)[i] is Some);
        }
    }
    assert forall|i: int| 0 <= i < pos implies #[trigger] es[i] == entry_bytes(s, i) by {
        assert(records_of(t)[i] == records_of(s)[i]);
    }
    assert(es[pos] == internal_entry(child, sep)) by {
        assert(records_of(t)[pos] == Some(internal_entry(child, sep)));
    }
    if pos < n {
        assert(records_of(t)[pos + 1] == records_of(s)[pos]);
        assert(node_key(t, pos + 1) == node_key(s, pos));
    }
    assert forall|i: int| pos + 1 < i < es.len() implies #[trigger] es[i] == entry_bytes(s, i - 1) by {
        assert(records_of(t)[i] == records_of(s)[i - 1]);
    }
    lemma_parent_entries(s, es, pos, child, sep, right, link_of(u), key, lo, hi);
    lemma_run_keys(u, es, 0);
    let d = if key_lt(key, sep) {
        pos
    } else {
        pos + 1
    };
    lemma_run_child(u, es, 0, link_of(u), key, d);
    assert forall|k: Seq<u8>| above(k, lo) && below(k, hi) implies #[trigger] next_on_path(u, k) == new_child_for(
        s,
        key,
        sep,
        right,
        k,
    ) by {
        lemma_parent_route(s, es, child, sep, right, link_of(u), key, k, lo, hi);
        lemma_run_child(u, es, 0, link_of(u), k, route_index(s, key, sep, k));
    }
}

/// The page that `key` now lives under after an insert into page `p` that
/// returned `split`: `p`, or the new right sibling when `key` is not below
/// the separator.
pub open spec fn target_of(split: Option<(Vec<u8>, PageId)>, p: int, key: Seq<u8>) -> int {
    match split {
        None => p,
        Some(x) => if key_lt(key, x.0@) {
            p
        } else {
            x.1.0 as int
        },
    }
}

/// What an insert of `key` under page `pid`, through at most `fuel`
/// internal nodes, made of pages `a`, now `b`, did for another key `k`:
/// looking `k` up from the page it now lives under finds what it found
/// before, and that search visits only pages of the old search paths for
/// `k` and `key`, and new pages.
pub open spec fn kept_for(a: Seq<Seq<u8>>, b: Seq<Seq<u8>>, pid: int, key: Seq<u8>, k: Seq<u8>, split: Option<(Vec<u8>, PageId)>, fuel: nat) -> bool {
    let t = target_of(split, pid, k);
    &&& lookup_from(b, t, k, fuel) == lookup_from(a, pid, k, fuel)
    &&& forall|q: int| #[trigger]
        on_path(b, t, k, fuel, q) ==> on_path(a, pid, k, fuel, q) || on_path(a, pid, key, fuel, q)
            || q >= a.len()
}

/// What an insert of `key` with `rid` under page `pid`, through at most
/// `fuel` internal nodes, made of pages `a`, now `b`: looking `key` up from
/// the page it lives under finds `rid`; that search visits only pages of
/// the old search path and new pages; no page off the old path changed;
/// every other key whose search path is in order and parts from that of
/// `key` for good finds what it found before; and a split hands up a new
/// page and a separator strictly above `lo` and below `hi`.
pub open spec fn landed(a: Seq<Seq<u8>>, b: Seq<Seq<u8>>, pid: int, key: Seq<u8>, rid: RecordId, split: Option<(Vec<u8>, PageId)>, lo: Option<Seq<u8>>, hi: Option<Seq<u8>>, fuel: nat) -> bool {
    let t = target_of(split, pid, key);
    &&& a.len() <= b.len()
    &&& lookup_from(b, t, key, fuel) == Some(Some(rid))
    &&& forall|q: int| #[trigger]
        on_path(b, t, key, fuel, q) ==> on_path(a, pid, key, fuel, q) || q >= a.len()
    &&& forall|q: int|
        0 <= q < a.len() && !on_path(a, pid, key, fuel, q) ==> #[trigger] b[q] == a[q]
    &&& forall|k: Seq<u8>|
        k != key && path_ranged(a, pid, k, lo, hi, fuel) && apart(a, pid, key, k, fuel) ==> #[trigger] kept_for(
            a,
            b,
            pid,
            key,
            k,
            split,
            fuel,
        )
    &&& split matches Some(x) ==> {
        &&& x.1.0 >= a.len()
        &&& strictly_above(x.0@, lo)
        &&& below(x.0@, hi)
    }
}

/// An insert into a leaf on an ordered search path lands.
proof fn lemma_leaf_landed(a: Seq<Seq<u8>>, b: Seq<Seq<u8>>, pid: int, key: Seq<u8>, rid: RecordId, split: Option<(Vec<u8>, PageId)>, lo: Option<Seq<u8>>, hi: Option<Seq<u8>>, fuel: nat)
    requires
        ordered_node(a, pid),
        is_leaf_page(a[pid]),
        a.len() <= b.len(),
        leaf_split_lands(b, pid, a[pid], key, rid, split, lo, hi),
        split matches Some(x) ==> x.1.0 == a.len(),
        forall|q: int| 0 <= q < a.len() && q != pid ==> #[trigger] b[q] == a[q],
    ensures
        landed(a, b, pid, key, rid, split, lo, hi, fuel),
{
    let t = target_of(split, pid, key);
    assert(on_path(a, pid, key, fuel, pid));
    assert forall|q: int| #[trigger] on_path(b, t, key, fuel, q) implies on_path(a, pid, key, fuel, q) || q >= a.len() by {
        assert(q == t);
    }
    assert forall|k: Seq<u8>|
        k != key && path_ranged(a, pid, k, lo, hi, fuel) && apart(a, pid, key, k, fuel) implies #[trigger] kept_for(
        a,
        b,
        pid,
        key,
        k,
        split,
        fuel,
    ) by {
        let tk = target_of(split, pid, k);
        assert(leaf_keeps(b, tk, k, leaf_find(a[pid], k)));
        assert(on_path(a, pid, k, fuel, pid));
        assert forall|q: int| #[trigger] on_path(b, tk, k, fuel, q) implies on_path(a, pid, k, fuel, q) || on_path(
            a,
            pid,
            key,
            fuel,
            q,
        ) || q >= a.len() by {
            assert(q == tk);
        }
    }
}

/// After an insert of `key` into the child it goes under and the separator
/// went into the node, another key whose search path is in order and parts
/// from that of `key` for good finds what it found before.
proof fn lemma_step_kept(
    a: Seq<Seq<u8>>,
    b: Seq<Seq<u8>>,
    c: Seq<Seq<u8>>,
    pid: int,
    child: int,
    key: Seq<u8>,
    rid: RecordId,
    split1: Option<(Vec<u8>, PageId)>,
    split2: Option<(Vec<u8>, PageId)>,
    lo: Option<Seq<u8>>,
    hi: Option<Seq<u8>>,
    fuel: nat,
    k: Seq<u8>,
)
    requires
        path_ranged(a, pid, key, lo, hi, fuel),
        !is_leaf_page(a[pid]),
        fuel > 0,
        child == next_on_path(a[pid], key),
        landed(
            a,
            b,
            child,
            key,
            rid,
            split1,
            child_lo(a[pid], child_index(a[pid], key), lo),
            child_hi(a[pid], child_index(a[pid], key), hi),
            (fuel - 1) as nat,
        ),
        b.len() <= c.len(),
        forall|q: int| 0 <= q < b.len() && q != pid ==> #[trigger] c[q] == b[q],
        split2 matches Some(x) ==> x.1.0 >= b.len(),
        parent_after(c, pid, a[pid], key, split1, split2, lo, hi),
        k != key,
        path_ranged(a, pid, k, lo, hi, fuel),
        apart(a, pid, key, k, fuel),
    ensures
        kept_for(a, c, pid, key, k, split2, fuel),
{
    let s = a[pid];
    let f1 = (fuel - 1) as nat;
    let ck = child_index(s, k);
    let nk = next_on_path(s, k);
    let t2 = target_of(split2, pid, k);
    let t1 = if ck == child_index(s, key) {
        target_of(split1, child, k)
    } else {
        nk
    };
    assert(routes(c, t2, k, t1)) by {
        if let Some(x) = split1 {
            assert(routes(c, t2, k, new_child_for(s, key, x.0@, x.1.0, k)));
        }
    }
    assert(!on_path(a, nk, k, f1, pid));
    assert(!on_path(a, child, key, f1, pid));
    assert(on_path(a, pid, k, fuel, pid));
    lemma_path_ranged_descends(a, nk, k, child_lo(s, ck, lo), child_hi(s, ck, hi), f1);
    if ck == child_index(s, key) {
        assert(kept_for(a, b, child, key, k, split1, f1));
        assert forall|q: int| #[trigger] on_path(b, t1, k, f1, q) implies c[q] == b[q] by {
            lemma_on_path_ordered(b, t1, k, f1, q);
            if on_path(a, child, k, f1, q) {
                assert(q != pid);
            }
            if on_path(a, child, key, f1, q) {
                assert(q != pid);
            }
        }
        lemma_descend_agree(b, c, t1, k, f1);
        assert forall|q: int| #[trigger] on_path(c, t2, k, fuel, q) implies on_path(a, pid, k, fuel, q) || on_path(
            a,
            pid,
            key,
            fuel,
            q,
        ) || q >= a.len() by {
            if q != t2 {
                assert(on_path(c, t1, k, f1, q));
                assert(on_path(b, t1, k, f1, q));
                if on_path(a, child, k, f1, q) {
                    assert(on_path(a, pid, k, fuel, q));
                }
                if on_path(a, child, key, f1, q) {
                    assert(on_path(a, pid, key, fuel, q));
                }
            }
        }
    } else {
        assert forall|q: int| #[trigger] on_path(a, nk, k, f1, q) implies c[q] == a[q] by {
            lemma_on_path_ordered(a, nk, k, f1, q);
            assert(!on_path(a, child, key, f1, q));
            assert(q != pid);
            assert(b[q] == a[q]);
        }
        lemma_descend_agree(a, c, nk, k, f1);
        assert forall|q: int| #[trigger] on_path(c, t2, k, fuel, q) implies on_path(a, pid, k, fuel, q) || on_path(
            a,
            pid,
            key,
            fuel,
            q,
        ) || q >= a.len() by {
            if q != t2 {
                assert(on_path(c, nk, k, f1, q));
                assert(on_path(a, nk, k, f1, q));
                assert(on_path(a, pid, k, fuel, q));
            }
        }
    }
}

/// An insert into the child that `key` goes under, on an ordered search
/// path, followed by putting the child's separator into the node, lands.
proof fn lemma_step_landed(
    a: Seq<Seq<u8>>,
    b: Seq<Seq<u8>>,
    c: Seq<Seq<u8>>,
    pid: int,
    child: int,
    key: Seq<u8>,
    rid: RecordId,
    split1: Option<(Vec<u8>, PageId)>,
    split2: Option<(Vec<u8>, PageId)>,
    lo: Option<Seq<u8>>,
    hi: Option<Seq<u8>>,
    fuel: nat,
)
    requires
        path_ranged(a, pid, key, lo, hi, fuel),
        !is_leaf_page(a[pid]),
        fuel > 0,
        child == next_on_path(a[pid], key),
        landed(
            a,
            b,
            child,
            key,
            rid,
            split1,
            child_lo(a[pid], child_index(a[pid], key), lo),
            child_hi(a[pid], child_index(a[pid], key), hi),
            (fuel - 1) as nat,
        ),
        b.len() <= c.len(),
        forall|q: int| 0 <= q < b.len() && q != pid ==> #[trigger] c[q] == b[q],
        split2 matches Some(x) ==> x.1.0 >= b.len(),
        parent_after(c, pid, a[pid], key, split1, split2, lo, hi),
    ensures
        landed(a, c, pid, key, rid, split2, lo, hi, fuel),
{
    let f1 = (fuel - 1) as nat;
    let t1 = target_of(split1, child, key);
    let t2 = target_of(split2, pid, key);
    assert(routes(c, t2, key, t1)) by {
        if let Some(x) = split1 {
            assert(routes(c, t2, key, new_child_for(a[pid], key, x.0@, x.1.0, key)));
        }
    }
    assert(!on_path(a, child, key, f1, pid));
    assert(on_path(a, pid, key, fuel, pid));
    assert forall|q: int| #[trigger] on_path(b, t1, key, f1, q) implies c[q] == b[q] by {
        lemma_on_path_ordered(b, t1, key, f1, q);
        if on_path(a, child, key, f1, q) {
            assert(q != pid);
        }
    }
    lemma_descend_agree(b, c, t1, key, f1);
    assert(lookup_from(c, t2, key, fuel) == lookup_from(c, t1, key, f1));
    assert forall|q: int| #[trigger] on_path(c, t2, key, fuel, q) implies on_path(a, pid, key, fuel, q) || q
        >= a.len() by {
        if q != t2 {
            assert(on_path(c, t1, key, f1, q));
            assert(on_path(b, t1, key, f1, q));
            if on_path(a, child, key, f1, q) {
                assert(on_path(a, pid, key, fuel, q));
            }
        }
    }
    assert forall|k: Seq<u8>|
        k != key && path_ranged(a, pid, k, lo, hi, fuel) && apart(a, pid, key, k, fuel) implies #[trigger] kept_for(
        a,
        c,
        pid,
        key,
        k,
        split2,
        fuel,
    ) by {
        lemma_step_kept(a, b, c, pid, child, key, rid, split1, split2, lo, hi, fuel, k);
    }
    assert forall|q: int| 0 <= q < a.len() && !on_path(a, pid, key, fuel, q) implies #[trigger] c[q] == a[q] by {
        if on_path(a, child, key, f1, q) {
            assert(on_path(a, pid, key, fuel, q));
        }
        assert(b[q] == a[q]);
    }
}

/// A root that did not split still leads a key whose search from it found
/// what it found before, through the meta page, to the same result.
proof fn lemma_root_kept(a: Seq<Seq<u8>>, b: Seq<Seq<u8>>, k: Seq<u8>)
    requires
        search_path_ordered(a, k),
        a.len() <= b.len(),
        b[0] == a[0],
        lookup_from(b, meta_root(a[0]) as int, k, a.len()) == lookup_from(a, meta_root(a[0]) as int, k, a.len()),
    ensures
        tree_lookup(b, k) == tree_lookup(a, k),
{
    let root = meta_root(a[0]) as int;
    lemma_path_ranged_descends(a, root, k, None, None, a.len());
    lemma_descend_more_fuel(b, root, k, a.len(), b.len());
}

/// A new root over the two halves of the old one sends a key to the half
/// it sorts into, so looking it up from the meta page finds what looking it
/// up from that half found.
proof fn lemma_root_split_lands(
    a: Seq<Seq<u8>>,
    b: Seq<Seq<u8>>,
    np: Seq<u8>,
    root: u64,
    sep: Seq<u8>,
    right: u64,
    key: Seq<u8>,
    found: Option<Option<RecordId>>,
    fuel: nat,
)
    requires
        lookup_from(
            a,
            (if key_lt(key, sep) {
                root
            } else {
                right
            }) as int,
            key,
            fuel,
        ) == found,
        found is Some,
        fuel <= a.len(),
        b.len() == a.len() + 1,
        b[a.len() as int] == np,
        forall|q: int| 1 <= q < a.len() ==> #[trigger] b[q] == a[q],
        meta_root(b[0]) == a.len(),
        node_ok(np),
        is_internal_page(np),
        slot_count_of(np) == 1,
        records_of(np)[0] == Some(internal_entry(root, sep)),
        link_of(np) == right,
    ensures
        tree_lookup(b, key) == found,
{
    let t = (if key_lt(key, sep) {
        root
    } else {
        right
    }) as int;
    let nr = a.len() as int;
    let es = seq![internal_entry(root, sep)];
    lemma_internal_entry(root, sep);
    assert(holds_run(np, es, 0));
    assert(entry_key(es[0], CHILD_SIZE as int) == sep);
    let d = if key_lt(key, sep) {
        0int
    } else {
        1int
    };
    if !key_lt(key, sep) {
        lemma_key_lt_total(key, sep);
    }
    assert(fits_at(es, CHILD_SIZE as int, key, d));
    lemma_run_child(np, es, 0, right, key, d);
    lemma_run_keys(np, es, 0);
    assert(keys_sorted(node_keys(np)));
    assert(ordered_node(b, nr));
    assert(next_on_path(np, key) == t);
    assert forall|q: int| #[trigger] on_path(a, t, key, fuel, q) implies b[q] == a[q] by {
        lemma_on_path_ordered(a, t, key, fuel, q);
    }
    lemma_descend_agree(a, b, t, key, fuel);
    lemma_descend_more_fuel(b, t, key, fuel, a.len());
    assert(descend(b, nr, key, b.len()) == descend(b, t, key, a.len()));
}

/// Replaces the page in `frame`.
fn write_frame(pool: &mut BufferPool, frame: FrameId, page: Page)
    requires
        old(pool).wf(),
        frame < old(pool).frame_count(),
        old(pool).frame_of(frame as int) is Some,
    ensures
        final(pool).wf(),
        final(pool).same_frames_except(old(pool), -1),
        final(pool).frame_count() == old(pool).frame_count(),
        final(pool).frame_page(frame as int) == page@,
        final(pool).pages() == old(pool).pages().update(frame_pid(old(pool), frame as int), page@),
        forall|g: int|
            0 <= g < old(pool).frame_count() && g != frame ==> #[trigger] final(pool).frame_page(g)
                == old(pool).frame_page(g),
{
    *pool.page_mut(frame) = page;
}

/// Drops the pins of two frames that are the only pinned ones.
fn release_two(pool: &mut BufferPool, f: FrameId, g: FrameId)
    requires
        old(pool).wf(),
        f < old(pool).frame_count(),
        g < old(pool).frame_count(),
        f != g,
        old(pool).frame_pin(f as int) == 1,
        old(pool).frame_pin(g as int) == 1,
        forall|h: int|
            0 <= h < old(pool).frame_count() && h != f && h != g ==> #[trigger] old(pool).frame_pin(h)
                == 0,
    ensures
        final(pool).wf(),
        final(pool).all_unpinned(),
        final(pool).pages() == old(pool).pages(),
        final(pool).frame_count() == old(pool).frame_count(),
{
    let _ = pool.unpin(f);
    let _ = pool.unpin(g);
}

/// Every entry is long enough for the header of its node kind and fits in a
/// page.
/// The largest entry that a split is sure to find room for: a quarter of
/// a page's usable bytes.
pub open spec fn small_entry() -> int {
    (PAGE_SIZE - HEADER_SIZE) / 4
}

/// Every entry of node `s` is small.
pub open spec fn node_small(s: Seq<u8>) -> bool {
    forall|i: int| 0 <= i < slot_count_of(s) ==> opt_len(#[trigger] records_of(s)[i]) <= small_entry()
}

/// Every node on the search path for `key` from `pid`, through at most
/// `fuel` internal nodes, has only small entries.
pub open spec fn path_small(pages: Seq<Seq<u8>>, pid: int, key: Seq<u8>, fuel: nat) -> bool
    decreases fuel,
{
    &&& node_small(pages[pid])
    &&& !is_leaf_page(pages[pid]) && fuel > 0 ==> path_small(pages, next_on_path(pages[pid], key), key, (fuel - 1) as nat)
}

/// Entries put in a page take their bytes and a slot entry each.
proof fn lemma_entries_total(rs: Seq<Option<Seq<u8>>>, es: Seq<Vec<u8>>, m: int)
    requires
        0 <= m <= rs.len(),
        rs.len() == es.len(),
        forall|k: int| 0 <= k < rs.len() ==> #[trigger] rs[k] == Some(es[k]@),
    ensures
        entries_size(es, m) == total_len(rs.take(m)) + SLOT_SIZE * m,
    decreases m,
{
    if m > 0 {
        lemma_entries_total(rs, es, m - 1);
        assert(rs.take(m).drop_last() =~= rs.take(m - 1));
        assert(rs.take(m).last() == rs[m - 1]);
    }
}

/// Putting an entry in at `slot` adds its bytes to every prefix past it.
proof fn lemma_entries_size_insert(es: Seq<Vec<u8>>, slot: int, e: Vec<u8>, m: int)
    requires
        0 <= slot <= es.len(),
        0 <= m <= es.len() + 1,
    ensures
        entries_size(es.insert(slot, e), m) == if m <= slot {
            entries_size(es, m)
        } else {
            entries_size(es, m - 1) + e@.len() + SLOT_SIZE
        },
    decreases m,
{
    if m > 0 {
        lemma_entries_size_insert(es, slot, e, m - 1);
        let ins = es.insert(slot, e);
        if m - 1 < slot {
            assert(ins[m - 1] == es[m - 1]);
        } else if m - 1 == slot {
            assert(ins[m - 1] == e);
        } else {
            assert(ins[m - 1] == es[m - 2]);
        }
    }
}

/// Entries of the same lengths take the same bytes.
proof fn lemma_entries_size_same(a: Seq<Vec<u8>>, b: Seq<Vec<u8>>, m: int)
    requires
        a.len() == b.len(),
        0 <= m <= a.len(),
        forall|k: int| 0 <= k < a.len() ==> (#[trigger] a[k])@.len() == b[k]@.len(),
    ensures
        entries_size(a, m) == entries_size(b, m),
    decreases m,
{
    if m > 0 {
        lemma_entries_size_same(a, b, m - 1);
        assert(a[m - 1]@.len() == b[m - 1]@.len());
    }
}

/// The entries of a node, with one more of `extra` bytes put in, take at
/// most a page's usable bytes and that entry's.
proof fn lemma_node_entries_size(s: Seq<u8>, old_entries: Seq<Vec<u8>>, slot: int, e: Vec<u8>)
    requires
        slotted_wf(s),
        old_entries.len() == slot_count_of(s),
        forall|i: int| 0 <= i < old_entries.len() ==> records_of(s)[i] == Some(#[trigger] old_entries[i]@),
        0 <= slot <= old_entries.len(),
    ensures
        entries_size(old_entries.insert(slot, e), old_entries.len() + 1 as int) <= PAGE_SIZE - HEADER_SIZE + e@.len()
            + SLOT_SIZE,
{
    let rs = records_of(s);
    let n = old_entries.len() as int;
    assert forall|k: int| 0 <= k < rs.len() implies #[trigger] rs[k] == Some(old_entries[k]@) by {}
    lemma_entries_total(rs, old_entries, n);
    assert(rs.take(n) =~= rs);
    lemma_entries_size_insert(old_entries, slot, e, n + 1);
}

/// A leaf split of page `p`, from `a` to `b`, handed up `sep` and the new
/// page `right`: `p` now links to `right`, `right` links on where `p`
/// linked, and `sep` is the first key of `right`.
pub open spec fn leaf_split_linked(a: Seq<Seq<u8>>, b: Seq<Seq<u8>>, p: int, sep: Seq<u8>, right: int) -> bool {
    &&& link_of(b[p]) == right
    &&& link_of(b[right]) == link_of(a[p])
    &&& slot_count_of(b[right]) >= 1
    &&& sep == node_key(b[right], 0)
}

/// Leaf `s` takes `key` in place: it holds the key already, whose record
/// id is then rewritten, or has room for a new entry and its slot.
pub open spec fn leaf_has_room(s: Seq<u8>, key: Seq<u8>) -> bool {
    ||| exists|i: int| 0 <= i < slot_count_of(s) && #[trigger] node_key(s, i) == key
    ||| RID_SIZE + key.len() + SLOT_SIZE <= free_bytes_of(s)
}

pub open spec fn entries_fit(entries: Seq<Vec<u8>>, header: int) -> bool {
    forall|k: int| 0 <= k < entries.len() ==> header <= (#[trigger] entries[k])@.len() <= MAX_RECORD
}

/// The entries of a node read out in slot order, with `entry` put in at
/// `slot`, all fit.
proof fn lemma_entries_fit(s: Seq<u8>, old_entries: Seq<Vec<u8>>, entries: Seq<Vec<u8>>, slot: int, entry: Vec<u8>, header: int)
    requires
        node_ok(s),
        header <= crate::btree::node::entry_header(s),
        old_entries.len() == slot_count_of(s),
        forall|i: int| 0 <= i < old_entries.len() ==> records_of(s)[i] == Some(#[trigger] old_entries[i]@),
        0 <= slot <= old_entries.len(),
        entries == old_entries.insert(slot, entry),
        header <= entry@.len() <= MAX_RECORD,
    ensures
        entries_fit(entries, header),
        entries.len() <= MAX_SLOTS + 1,
        entries_size(entries, entries.len() as int) <= usize::MAX,
{
    assert forall|k: int| 0 <= k < entries.len() implies header <= (#[trigger] entries[k])@.len() <= MAX_RECORD by {
        if k < slot {
            lemma_record_len(s, k);
            assert(records_of(s)[k] == Some(old_entries[k]@));
        } else if k > slot {
            lemma_record_len(s, k - 1);
            assert(records_of(s)[k - 1] == Some(old_entries[k - 1]@));
        }
    }
    lemma_fit_size(entries, header);
}

/// A node's worth of entries that each fit in a page takes fewer bytes
/// than a `usize` counts.
proof fn lemma_fit_size(entries: Seq<Vec<u8>>, header: int)
    requires
        entries_fit(entries, header),
        entries.len() <= MAX_SLOTS + 1,
    ensures
        entries_size(entries, entries.len() as int) <= usize::MAX,
{
    let n = entries.len() as int;
    let w: int = MAX_RECORD + SLOT_SIZE;
    lemma_entries_size_bound(entries, n, MAX_RECORD as int);
    assert(w <= 4096);
    assert(n <= 1017);
    assert(n * w <= 1017 * 4096) by (nonlinear_arith)
        requires
            0 <= n <= 1017,
            0 <= w <= 4096,
    ;
}

/// Splits the full leaf in `frame`, page `page_id`, whose entries with
/// `entry` put in at `slot` no longer fit in one page: the upper part moves
/// to a fresh page that follows it in the leaf chain. Returns the first key
/// of the fresh page and its id, for the parent.
#[verifier::spinoff_prover]
#[verifier::rlimit(100)]
fn split_leaf(
    pool: &mut BufferPool,
    frame: FrameId,
    page_id: PageId,
    slot: u16,
    entry: Vec<u8>,
    key: &[u8],
    record: RecordId,
    Ghost(lo): Ghost<Option<Seq<u8>>>,
    Ghost(hi): Ghost<Option<Seq<u8>>>,
) -> (r: Result<Option<(Vec<u8>, PageId)>>)
    requires
        ready_but_pinned(old(pool), frame as int),
        old(pool).frame_of(frame as int) == Some(page_id),
        leaf_page(old(pool).pages(), page_id.0 as int),
        old(pool).frame_page(frame as int) == old(pool).pages()[page_id.0 as int],
        slot <= slot_count_of(old(pool).pages()[page_id.0 as int]),
        slot_count_of(old(pool).pages()[page_id.0 as int]) >= 1,
        entry@ == leaf_entry(record, key@),
        entry@.len() <= MAX_RECORD,
        old(pool).pages().len() + 1 < usize::MAX,
        old(pool).pages().len() + 1 <= u64::MAX,
    ensures
        tree_ready(final(pool)),
        final(pool).frame_count() == old(pool).frame_count(),
        nodes_frame(old(pool).pages(), final(pool).pages()),
        final(pool).pages().len() <= old(pool).pages().len() + 1,
        r is Ok ==> final(pool).pages().len() == old(pool).pages().len() + 1 && r matches Ok(Some(_)),
        forall|q: int|
            0 <= q < old(pool).pages().len() && q != page_id.0 ==> #[trigger] final(pool).pages()[q]
                == old(pool).pages()[q],
        r matches Ok(Some(x)) ==> x.1.0 == old(pool).pages().len(),
        r matches Ok(Some(x)) ==> leaf_split_linked(
            old(pool).pages(),
            final(pool).pages(),
            page_id.0 as int,
            x.0@,
            x.1.0 as int,
        ),
        key_slot_in(old(pool).pages()[page_id.0 as int], key@, slot as int, lo, hi) ==> (r matches Ok(
            split,
        ) ==> leaf_split_lands(
            final(pool).pages(),
            page_id.0 as int,
            old(pool).pages()[page_id.0 as int],
            key@,
            record,
            split,
            lo,
            hi,
        )),
        match r {
            Ok(split) => has_entry(final(pool).pages(), key@, record) && split_ok(split),
            Err(Error::BufferPoolFull) => old(pool).frame_count() < 2,
            Err(e) => e is PageFull,
        },
        old(pool).frame_count() >= 2 && node_small(old(pool).pages()[page_id.0 as int]) && entry@.len()
            <= small_entry() ==> (r matches Ok(split) && split_small(split)),
{
    let ghost pages0 = pool.pages();
    let ghost p = page_id.0 as int;
    let ghost s = pages0[p];
    proof {
        lemma_leaf_entry(record, key@);
        lemma_nodes_frame_refl(pages0);
    }
    let old_next = pool.page(frame).next_leaf();
    let mut entries = match pool.page(frame).entries() {
        Ok(v) => v,
        Err(e) => {
            proof {
                if let Error::SlotDeleted(x) = e {
                    assert(records_of(s)[x as int] is Some);
                }
            }
            release(pool, frame);
            return Err(e);
        },
    };
    let ghost old_entries = entries@;
    entries.insert(slot as usize, entry);
    proof {
        lemma_entries_fit(s, old_entries, entries@, slot as int, entries@[slot as int], RID_SIZE as int);
    }
    let mid = split_point(&entries);
    proof {
        if node_small(s) && entries@[slot as int]@.len() <= small_entry() {
            let es = entries@;
            let n = es.len() as int;
            let m = mid as int;
            assert(es == old_entries.insert(slot as int, es[slot as int]));
            lemma_node_entries_size(s, old_entries, slot as int, es[slot as int]);
            assert forall|k: int| 0 <= k < n implies (#[trigger] es[k])@.len() <= small_entry() by {
                if k < slot {
                    assert(records_of(s)[k] == Some(old_entries[k]@));
                } else if k > slot {
                    assert(records_of(s)[k - 1] == Some(old_entries[k - 1]@));
                }
            }
            let total = entries_size(es, n);
            if m >= 2 {
                assert(entries_size(es, m - 1) < total / 2);
            }
            assert(entries_size(es, m) == entries_size(es, m - 1) + es[m - 1]@.len() + SLOT_SIZE);
            assert(entries_size(es, m) <= PAGE_SIZE - HEADER_SIZE);
            if m == n - 1 {
                assert(entries_size(es, n) == entries_size(es, n - 1) + es[n - 1]@.len() + SLOT_SIZE);
            }
            assert(total - entries_size(es, m) <= PAGE_SIZE - HEADER_SIZE);
            assert(entries_size(es, 0) == 0);
        }
        if pool.frame_count() >= 2 {
            let g: FrameId = if frame == 0 {
                1
            } else {
                0
            };
            pool.lemma_unpinned_frame_free(g);
        }
    }
    let (right_id, right_frame) = match pool.new_page() {
        Ok(x) => x,
        Err(e) => {
            proof {
                lemma_frames_push(pages0, pages0, zero_page());
            }
            release(pool, frame);
            return Err(e);
        },
    };
    let ghost pages1 = pool.pages();
    proof {
        lemma_frames_push(pages0, pages0, zero_page());
        pool.lemma_frame_view(frame as int);
    }
    let n_entries = entries.len();
    let mut right = Page::new();
    right.init_leaf();
    match append_entries(&mut right, &entries, mid, n_entries) {
        Ok(()) => {},
        Err(e) => {
            write_frame(pool, right_frame, right);
            release_two(pool, frame, right_frame);
            proof {
                lemma_nodes_frame_update(pages0, pages1, right_id.0 as int, pool.pages()[right_id.0 as int]);
            }
            return Err(e);
        },
    }
    let mut left = pool.page(frame).copy();
    left.init_leaf();
    match append_entries(&mut left, &entries, 0, mid) {
        Ok(()) => {},
        Err(e) => {
            let ghost rp = right@;
            let ghost lp = left@;
            write_frame(pool, right_frame, right);
            proof {
                pool.lemma_frame_view(frame as int);
            }
            write_frame(pool, frame, left);
            release_two(pool, frame, right_frame);
            proof {
                lemma_nodes_frame_update(pages0, pages1, right_id.0 as int, rp);
                lemma_nodes_frame_update(pages0, pages1.update(right_id.0 as int, rp), p, lp);
                assert(pool.pages() == pages1.update(right_id.0 as int, rp).update(p, lp));
            }
            return Err(e);
        },
    }
    right.set_next_leaf(old_next);
    left.set_next_leaf(Some(right_id));
    let ghost rp = right@;
    let ghost lp = left@;
    proof {
        assert forall|i: int| 0 <= i < slot_count_of(rp) implies (#[trigger] records_of(rp)[i]) is Some
            && records_of(rp)[i]->0.len() >= RID_SIZE by {
            assert(records_of(rp)[i] == Some(entries@[mid + i]@));
        }
        assert forall|i: int| 0 <= i < slot_count_of(lp) implies (#[trigger] records_of(lp)[i]) is Some
            && records_of(lp)[i]->0.len() >= RID_SIZE by {
            assert(records_of(lp)[i] == Some(entries@[i]@));
        }
        assert(node_ok(rp));
        assert(node_ok(lp));
    }
    let separator = match right.leaf_key(0) {
        Ok(k) => vstd::slice::slice_to_vec(k),
        Err(e) => {
            assert(false);
            return Err(e);
        },
    };
    proof {
        assert(records_of(rp)[0] == Some(entries@[mid as int]@));
        assert(link_of(rp) == link_of(s));
    }
    write_frame(pool, right_frame, right);
    proof {
        pool.lemma_frame_view(frame as int);
    }
    write_frame(pool, frame, left);
    release_two(pool, frame, right_frame);
    proof {
        let pages2 = pages1.update(right_id.0 as int, rp);
        let pages3 = pages2.update(p, lp);
        assert(pool.pages() == pages3);
        lemma_nodes_frame_update(pages0, pages1, right_id.0 as int, rp);
        lemma_nodes_frame_update(pages0, pages2, p, lp);
        if slot < mid {
            assert(records_of(lp)[slot as int] == Some(entries@[slot as int]@));
            assert(node_key(lp, slot as int) == key@);
            assert(leaf_rid(lp, slot as int) == record);
            assert(pages3[p] == lp);
            assert(is_leaf_page(lp));
            assert(leaf_has(pages3, p, key@, record));
        } else {
            let i = slot - mid;
            assert(records_of(rp)[i] == Some(entries@[slot as int]@));
            assert(node_key(rp, i) == key@);
            assert(leaf_rid(rp, i) == record);
            assert(pages3[right_id.0 as int] == rp);
            assert(is_leaf_page(rp));
            assert(leaf_has(pages3, right_id.0 as int, key@, record));
        }
        assert(pages_ok(pages3)) by {
            assert forall|q: int| 1 <= q < pages3.len() implies page_ok(#[trigger] pages3[q]) by {
                if q != p && q != right_id.0 {
                    assert(pages3[q] == pages0[q]);
                }
            }
        }
        if key_slot_in(s, key@, slot as int, lo, hi) {
            let es = Seq::new(entries@.len(), |i: int| entries@[i]@);
            let m = mid as int;
            assert forall|i: int| 0 <= i < slot implies #[trigger] records_of(s)[i] == Some(es[i]) by {
                assert(entries@[i] == old_entries[i]);
            }
            assert forall|i: int| slot < i < es.len() implies #[trigger] records_of(s)[i - 1] == Some(es[i]) by {
                assert(entries@[i] == old_entries[i - 1]);
            }
            assert forall|i: int| 0 <= i < slot_count_of(lp) implies #[trigger] records_of(lp)[i] == Some(es[0 + i]) by {
                assert(records_of(lp)[i] == Some(entries@[i]@));
            }
            assert forall|i: int| 0 <= i < slot_count_of(rp) implies #[trigger] records_of(rp)[i] == Some(es[m + i]) by {
                assert(records_of(rp)[i] == Some(entries@[m + i]@));
            }
            lemma_leaf_halves(s, es, slot as int, m, key@, record, lp, rp, separator@, lo, hi);
            assert(pages3[p] == lp);
            assert(pages3[right_id.0 as int] == rp);
        }
    }
    Ok(Some((separator, right_id)))
}

/// Inserts `key` with `record` into the leaf pinned in `frame`, page
/// `page_id`: an existing key gets the new record id, a new key goes in at
/// its place, and a full leaf splits.
#[verifier::spinoff_prover]
#[verifier::rlimit(60)]
fn insert_into_leaf(
    pool: &mut BufferPool,
    frame: FrameId,
    page_id: PageId,
    key: &[u8],
    record: RecordId,
    Ghost(lo): Ghost<Option<Seq<u8>>>,
    Ghost(hi): Ghost<Option<Seq<u8>>>,
) -> (r: Result<Option<(Vec<u8>, PageId)>>)
    requires
        ready_but_pinned(old(pool), frame as int),
        old(pool).frame_of(frame as int) == Some(page_id),
        leaf_page(old(pool).pages(), page_id.0 as int),
        old(pool).frame_page(frame as int) == old(pool).pages()[page_id.0 as int],
        RID_SIZE + key@.len() <= MAX_RECORD,
        old(pool).pages().len() + 1 < usize::MAX,
        old(pool).pages().len() + 1 <= u64::MAX,
    ensures
        tree_ready(final(pool)),
        final(pool).frame_count() == old(pool).frame_count(),
        nodes_frame(old(pool).pages(), final(pool).pages()),
        final(pool).pages().len() <= old(pool).pages().len() + 1,
        r matches Ok(Some(_)) ==> final(pool).pages().len() == old(pool).pages().len() + 1,
        r is Ok && final(pool).pages().len() == old(pool).pages().len() && keys_sorted(
            node_keys(old(pool).pages()[page_id.0 as int]),
        ) ==> leaf_updated(old(pool).pages(), final(pool).pages(), page_id.0 as int, key@, Some(record)),
        forall|q: int|
            0 <= q < old(pool).pages().len() && q != page_id.0 ==> #[trigger] final(pool).pages()[q]
                == old(pool).pages()[q],
        r matches Ok(Some(x)) ==> x.1.0 == old(pool).pages().len(),
        r matches Ok(Some(x)) ==> leaf_split_linked(
            old(pool).pages(),
            final(pool).pages(),
            page_id.0 as int,
            x.0@,
            x.1.0 as int,
        ),
        keys_sorted(node_keys(old(pool).pages()[page_id.0 as int])) && keys_within(
            old(pool).pages()[page_id.0 as int],
            lo,
            hi,
        ) && above(key@, lo) && below(key@, hi) ==> (r matches Ok(split) ==> leaf_split_lands(
            final(pool).pages(),
            page_id.0 as int,
            old(pool).pages()[page_id.0 as int],
            key@,
            record,
            split,
            lo,
            hi,
        )),
        match r {
            Ok(split) => has_entry(final(pool).pages(), key@, record) && split_ok(split),
            Err(Error::BufferPoolFull) => old(pool).frame_count() < 2,
            Err(e) => e is PageFull,
        },
        keys_sorted(node_keys(old(pool).pages()[page_id.0 as int])) && leaf_has_room(
            old(pool).pages()[page_id.0 as int],
            key@,
        ) ==> r matches Ok(None),
        r matches Ok(None) ==> final(pool).pages().len() == old(pool).pages().len() && link_of(
            final(pool).pages()[page_id.0 as int],
        ) == link_of(old(pool).pages()[page_id.0 as int]),
        old(pool).frame_count() >= 2 && node_small(old(pool).pages()[page_id.0 as int]) && RID_SIZE + key@.len()
            <= small_entry() ==> (r matches Ok(split) && split_small(split)),
{
    let ghost pages0 = pool.pages();
    let ghost p = page_id.0 as int;
    let ghost s = pages0[p];
    proof {
        lemma_leaf_entry(record, key@);
        lemma_nodes_frame_refl(pages0);
    }
    let (found, slot) = match pool.page(frame).search_slot(key) {
        Ok(x) => x,
        Err(e) => {
            release(pool, frame);
            return Err(e);
        },
    };
    if found {
        let result = pool.page_mut(frame).set_leaf_record_id(slot, record);
        release(pool, frame);
        proof {
            let t = pool.pages()[p];
            lemma_nodes_frame_update(pages0, pages0, p, t);
            assert(pool.pages() == pages0.update(p, t));
            assert(node_key(t, slot as int) == key@);
            assert(leaf_has(pool.pages(), p, key@, record));
            if keys_sorted(node_keys(s)) {
                assert(records_of(t).len() == records_of(s).len());
                lemma_leaf_replaced(s, t, slot as int, key@, record);
            }
        }
        return match result {
            Ok(()) => Ok(None),
            Err(e) => Err(e),
        };
    }
    let entry = encode_leaf_entry(record, key);
    let count = pool.page(frame).slot_count();
    if count == 0 {
        // an empty leaf may hold only stranded bytes: reclaim them first
        pool.page_mut(frame).compact();
        proof {
            assert(records_of(pool.pages()[p]) =~= records_of(s));
        }
    }
    let ghost s1 = pool.frame_page(frame as int);
    proof {
        assert(link_of(s1) == link_of(s));
    }
    let attempt = pool.page_mut(frame).insert_slot_at(slot, entry.as_slice());
    match attempt {
        Ok(()) => {
            proof {
                assert(link_of(pool.frame_page(frame as int)) == link_of(s1));
                pool.lemma_frame_view(frame as int);
                assert(link_of(pool.pages()[p]) == link_of(s));
            }
            release(pool, frame);
            proof {
                let t = pool.pages()[p];
                lemma_nodes_frame_update(pages0, pages0, p, t);
                assert(pool.pages() == pages0.update(p, t));
                assert forall|i: int| 0 <= i < slot_count_of(t) implies (#[trigger] records_of(t)[i]) is Some
                    && records_of(t)[i]->0.len() >= RID_SIZE by {
                    if i < slot {
                        assert(records_of(t)[i] == records_of(s)[i]);
                    } else if i > slot {
                        assert(records_of(t)[i] == records_of(s)[i - 1]);
                    }
                }
                assert(node_ok(t));
                assert(records_of(t)[slot as int] == Some(entry@));
                assert(node_key(t, slot as int) == key@);
                assert(leaf_has(pool.pages(), p, key@, record));
                if keys_sorted(node_keys(s)) {
                    lemma_leaf_inserted(s, t, slot as int, key@, record);
                }
            }
            Ok(None)
        },
        Err(Error::PageFull { size, free }) => {
            proof {
                assert(pool.pages() =~= pages0);
                if keys_sorted(node_keys(s)) {
                    assert forall|i: int| 0 <= i < slot_count_of(s) implies #[trigger] node_key(s, i) != key@ by {
                        lemma_key_lt_irreflexive(key@);
                    }
                    assert(!leaf_has_room(s, key@));
                }
            }
            split_leaf(pool, frame, page_id, slot, entry, key, record, Ghost(lo), Ghost(hi))
        },
        Err(e) => {
            release(pool, frame);
            Err(e)
        },
    }
}

/// Splits the full internal node in `frame`, page `page_id`, whose entries
/// with `entry` put in at `pos` no longer fit in one page. The middle entry
/// moves up: its child becomes the rightmost child of the left half and its
/// key the separator; the upper part moves to a fresh page. `right`, the new
/// sibling of the child that split, takes the place after `entry`.
#[verifier::spinoff_prover]
#[verifier::rlimit(100)]
fn split_internal(
    pool: &mut BufferPool,
    frame: FrameId,
    page_id: PageId,
    pos: u16,
    entry: Vec<u8>,
    was_rightmost: bool,
    right: PageId,
    Ghost(child): Ghost<u64>,
    Ghost(sep): Ghost<Seq<u8>>,
    Ghost(key): Ghost<Seq<u8>>,
    Ghost(lo): Ghost<Option<Seq<u8>>>,
    Ghost(hi): Ghost<Option<Seq<u8>>>,
) -> (r: Result<Option<(Vec<u8>, PageId)>>)
    requires
        ready_but_pinned(old(pool), frame as int),
        old(pool).frame_of(frame as int) == Some(page_id),
        1 <= page_id.0 < old(pool).pages().len(),
        node_ok(old(pool).pages()[page_id.0 as int]),
        is_internal_page(old(pool).pages()[page_id.0 as int]),
        old(pool).frame_page(frame as int) == old(pool).pages()[page_id.0 as int],
        pos <= slot_count_of(old(pool).pages()[page_id.0 as int]),
        was_rightmost == (pos == slot_count_of(old(pool).pages()[page_id.0 as int])),
        slot_count_of(old(pool).pages()[page_id.0 as int]) >= 1,
        CHILD_SIZE <= entry@.len() <= MAX_RECORD,
        old(pool).pages().len() + 1 < usize::MAX,
        old(pool).pages().len() + 1 <= u64::MAX,
    ensures
        tree_ready(final(pool)),
        final(pool).frame_count() == old(pool).frame_count(),
        nodes_frame(old(pool).pages(), final(pool).pages()),
        leaves_kept(old(pool).pages(), final(pool).pages()),
        final(pool).pages().len() <= old(pool).pages().len() + 1,
        r is Ok ==> final(pool).pages().len() == old(pool).pages().len() + 1,
        forall|q: int|
            0 <= q < old(pool).pages().len() && q != page_id.0 ==> #[trigger] final(pool).pages()[q]
                == old(pool).pages()[q],
        r matches Ok(Some(x)) ==> x.1.0 == old(pool).pages().len(),
        separator_fits(old(pool).pages()[page_id.0 as int], child, sep, key, lo, hi) && pos
            == child_index(old(pool).pages()[page_id.0 as int], key) && entry@ == internal_entry(child, sep)
            && right.0 != NO_PAGE ==> (r matches Ok(split) ==> parent_routes(
            final(pool).pages(),
            page_id.0 as int,
            old(pool).pages()[page_id.0 as int],
            key,
            sep,
            right.0,
            split,
            lo,
            hi,
        )),
        match r {
            Ok(split) => split_ok(split),
            Err(Error::BufferPoolFull) => old(pool).frame_count() < 2,
            Err(e) => e is PageFull,
        },
        old(pool).frame_count() >= 2 && node_small(old(pool).pages()[page_id.0 as int]) && entry@.len()
            <= small_entry() ==> (r matches Ok(split) && split_small(split)),
{
    let ghost pages0 = pool.pages();
    let ghost p = page_id.0 as int;
    let ghost s = pages0[p];
    proof {
        lemma_nodes_frame_refl(pages0);
    }
    let old_link = match pool.page(frame).rightmost_child() {
        Some(c) => c,
        None => {
            assert(false);
            release(pool, frame);
            return Err(Error::CorruptPage(page_id.0));
        },
    };
    let mut entries = match pool.page(frame).entries() {
        Ok(v) => v,
        Err(e) => {
            proof {
                if let Error::SlotDeleted(x) = e {
                    assert(records_of(s)[x as int] is Some);
                }
            }
            release(pool, frame);
            return Err(e);
        },
    };
    let ghost old_entries = entries@;
    entries.insert(pos as usize, entry);
    let ghost ins = entries@;
    proof {
        lemma_entries_fit(s, old_entries, entries@, pos as int, entries@[pos as int], CHILD_SIZE as int);
    }
    let link = if was_rightmost {
        right
    } else {
        let k = pos as usize + 1;
        let fixed = encode_internal_entry(right, crate::btree::node::internal_entry_key(entries[k].as_slice()));
        let ghost before = entries@;
        proof {
            lemma_internal_entry(right.0, before[k as int]@.subrange(CHILD_SIZE as int, before[k as int]@.len() as int));
        }
        entries.set(k, fixed);
        proof {
            assert forall|j: int| 0 <= j < entries@.len() implies CHILD_SIZE <= (#[trigger] entries@[j])@.len() <= MAX_RECORD by {
                if j != k {
                    assert(entries@[j] == before[j]);
                }
            }
            lemma_fit_size(entries@, CHILD_SIZE as int);
        }
        old_link
    };
    let mid = split_point(&entries);
    proof {
        if node_small(s) && ins[pos as int]@.len() <= small_entry() {
            let es = entries@;
            let n = es.len() as int;
            let m = mid as int;
            assert(ins == old_entries.insert(pos as int, ins[pos as int]));
            assert forall|j: int| 0 <= j < n implies (#[trigger] es[j])@.len() == ins[j]@.len() by {
                if !was_rightmost && j == pos + 1 {
                    assert(CHILD_SIZE <= ins[j]@.len());
                }
            }
            lemma_node_entries_size(s, old_entries, pos as int, ins[pos as int]);
            lemma_entries_size_same(ins, es, n);
            lemma_entries_size_grows(es, m, m + 1);
            lemma_entries_size_grows(es, m + 1, n);
            assert(entries_size(es, n) - entries_size(es, m + 1) <= PAGE_SIZE - HEADER_SIZE);
            assert forall|j: int| 0 <= j < n implies (#[trigger] es[j])@.len() <= small_entry() by {
                assert(es[j]@.len() == ins[j]@.len());
                if j < pos {
                    assert(records_of(s)[j] == Some(old_entries[j]@));
                } else if j > pos {
                    assert(records_of(s)[j - 1] == Some(old_entries[j - 1]@));
                }
            }
            let total = entries_size(es, n);
            if m >= 2 {
                assert(entries_size(es, m - 1) < total / 2);
            }
            assert(entries_size(es, m) == entries_size(es, m - 1) + es[m - 1]@.len() + SLOT_SIZE);
            assert(entries_size(es, m) <= PAGE_SIZE - HEADER_SIZE);
            assert(entries_size(es, 0) == 0);
        }
    }
    let promoted_child = crate::btree::node::internal_entry_child(entries[mid].as_slice());
    let promoted_key = vstd::slice::slice_to_vec(crate::btree::node::internal_entry_key(entries[mid].as_slice()));
    proof {
        if pool.frame_count() >= 2 {
            let g: FrameId = if frame == 0 {
                1
            } else {
                0
            };
            pool.lemma_unpinned_frame_free(g);
        }
    }
    let (right_id, right_frame) = match pool.new_page() {
        Ok(x) => x,
        Err(e) => {
            proof {
                lemma_frames_push(pages0, pages0, zero_page());
            }
            release(pool, frame);
            return Err(e);
        },
    };
    let ghost pages1 = pool.pages();
    proof {
        lemma_frames_push(pages0, pages0, zero_page());
        pool.lemma_frame_view(frame as int);
    }
    let n_entries = entries.len();
    let mut right_page = Page::new();
    right_page.init_internal(link);
    match append_entries(&mut right_page, &entries, mid + 1, n_entries) {
        Ok(()) => {},
        Err(e) => {
            let ghost rp = right_page@;
            write_frame(pool, right_frame, right_page);
            release_two(pool, frame, right_frame);
            proof {
                lemma_nodes_frame_update(pages0, pages1, right_id.0 as int, rp);
                lemma_leaves_kept_update(pages0, pages1, right_id.0 as int, rp);
            }
            return Err(e);
        },
    }
    let mut left = pool.page(frame).copy();
    left.init_internal(promoted_child);
    let ghost rp = right_page@;
    let filled = append_entries(&mut left, &entries, 0, mid);
    let ghost lp = left@;
    write_frame(pool, right_frame, right_page);
    proof {
        pool.lemma_frame_view(frame as int);
    }
    write_frame(pool, frame, left);
    release_two(pool, frame, right_frame);
    proof {
        let pages2 = pages1.update(right_id.0 as int, rp);
        let pages3 = pages2.update(p, lp);
        assert(pool.pages() == pages3);
        lemma_nodes_frame_update(pages0, pages1, right_id.0 as int, rp);
        lemma_nodes_frame_update(pages0, pages2, p, lp);
        lemma_leaves_kept_update(pages0, pages1, right_id.0 as int, rp);
        lemma_leaves_kept_update(pages0, pages2, p, lp);
        assert(pages_ok(pages3)) by {
            assert forall|q: int| 1 <= q < pages3.len() implies page_ok(#[trigger] pages3[q]) by {
                if q != p && q != right_id.0 {
                    assert(pages3[q] == pages0[q]);
                }
            }
        }
        if filled is Ok && separator_fits(s, child, sep, key, lo, hi) && pos == child_index(s, key) && entry@
            == internal_entry(child, sep) && right.0 != NO_PAGE {
            let es = Seq::new(entries@.len(), |i: int| entries@[i]@);
            let c = pos as int;
            let m = mid as int;
            assert forall|i: int| 0 <= i < c implies #[trigger] es[i] == entry_bytes(s, i) by {
                assert(entries@[i] == old_entries[i]);
                assert(records_of(s)[i] == Some(old_entries[i]@));
            }
            assert(es[c] == internal_entry(child, sep));
            if c + 1 < es.len() {
                assert(records_of(s)[c] == Some(old_entries[c]@));
                assert(es[c + 1] == internal_entry(right.0, node_key(s, c)));
            }
            assert forall|i: int| c + 1 < i < es.len() implies #[trigger] es[i] == entry_bytes(s, i - 1) by {
                assert(entries@[i] == old_entries[i - 1]);
                assert(records_of(s)[i - 1] == Some(old_entries[i - 1]@));
            }
            assert(records_of(lp).len() == m);
            assert forall|i: int| 0 <= i < slot_count_of(lp) implies #[trigger] records_of(lp)[i] == Some(es[0 + i]) by {
                assert(records_of(lp)[0 + i - 0] == Some(entries@[i]@));
            }
            assert(records_of(rp).len() == es.len() - m - 1);
            assert forall|i: int| 0 <= i < slot_count_of(rp) implies #[trigger] records_of(rp)[i] == Some(es[m + 1 + i]) by {
                assert(records_of(rp)[0 + (m + 1 + i) - (m + 1)] == Some(entries@[m + 1 + i]@));
            }
            assert forall|i: int| 0 <= i < es.len() implies CHILD_SIZE <= (#[trigger] es[i]).len() by {
                assert(CHILD_SIZE <= entries@[i]@.len());
            }
            lemma_internal_halves(s, es, child, sep, right.0, link.0, key, lo, hi, m, lp, rp);
            let pk = promoted_key@;
            assert(pk == entry_key(es[m], CHILD_SIZE as int));
            assert(pages3[p] == lp);
            assert(pages3[right_id.0 as int] == rp);
            let split = Some((promoted_key, right_id));
            assert forall|k: Seq<u8>| above(k, lo) && below(k, hi) implies routes(
                pages3,
                target_of(split, p, k),
                k,
                #[trigger] new_child_for(s, key, sep, right.0, k),
            ) by {
                if key_lt(k, pk) {
                    assert(next_on_path(lp, k) == new_child_for(s, key, sep, right.0, k));
                } else {
                    assert(next_on_path(rp, k) == new_child_for(s, key, sep, right.0, k));
                }
            }
        }
    }
    match filled {
        Ok(()) => Ok(Some((promoted_key, right_id))),
        Err(e) => Err(e),
    }
}

/// After child `child` of node `page_id` split off `right`, puts the
/// separator into the node, with `right` after it; a full node splits in
/// turn.
#[verifier::spinoff_prover]
#[verifier::rlimit(60)]
fn insert_separator(
    pool: &mut BufferPool,
    page_id: PageId,
    child: PageId,
    separator: Vec<u8>,
    right: PageId,
    Ghost(key): Ghost<Seq<u8>>,
    Ghost(lo): Ghost<Option<Seq<u8>>>,
    Ghost(hi): Ghost<Option<Seq<u8>>>,
) -> (r: Result<Option<(Vec<u8>, PageId)>>)
    requires
        tree_ready(old(pool)),
        separator@.len() + CHILD_SIZE <= MAX_RECORD,
        old(pool).pages().len() + 1 < usize::MAX,
        old(pool).pages().len() + 1 <= u64::MAX,
    ensures
        tree_ready(final(pool)),
        final(pool).frame_count() == old(pool).frame_count(),
        nodes_frame(old(pool).pages(), final(pool).pages()),
        leaves_kept(old(pool).pages(), final(pool).pages()),
        final(pool).pages().len() <= old(pool).pages().len() + 1,
        r matches Ok(Some(_)) ==> final(pool).pages().len() == old(pool).pages().len() + 1,
        forall|q: int|
            0 <= q < old(pool).pages().len() && q != page_id.0 ==> #[trigger] final(pool).pages()[q]
                == old(pool).pages()[q],
        r matches Ok(Some(x)) ==> x.1.0 == old(pool).pages().len(),
        separator_fits(old(pool).pages()[page_id.0 as int], child.0, separator@, key, lo, hi) && right.0
            != NO_PAGE ==> (r matches Ok(split) ==> parent_routes(
            final(pool).pages(),
            page_id.0 as int,
            old(pool).pages()[page_id.0 as int],
            key,
            separator@,
            right.0,
            split,
            lo,
            hi,
        )),
        match r {
            Ok(split) => split_ok(split),
            Err(Error::BufferPoolFull) => old(pool).frame_count() < 2,
            Err(e) => e is PageFull || corrupt_error(e),
        },
        old(pool).frame_count() >= 2 && 1 <= page_id.0 < old(pool).pages().len() && node_ok(
            old(pool).pages()[page_id.0 as int],
        ) && is_internal_page(old(pool).pages()[page_id.0 as int]) && node_small(
            old(pool).pages()[page_id.0 as int],
        ) && CHILD_SIZE + separator@.len() <= small_entry() ==> (r matches Ok(split) && split_small(split)),
{
    let ghost pages0 = pool.pages();
    let ghost p = page_id.0 as int;
    proof {
        lemma_nodes_frame_refl(pages0);
    }
    let frame = match fetch_node(pool, page_id) {
        Ok(f) => f,
        Err(e) => return Err(e),
    };
    if !pool.page(frame).is_internal() {
        release(pool, frame);
        return Err(Error::CorruptPage(page_id.0));
    }
    let ghost s = pages0[p];
    let (found, pos) = match pool.page(frame).search_slot(separator.as_slice()) {
        Ok(x) => x,
        Err(e) => {
            release(pool, frame);
            return Err(e);
        },
    };
    let count = pool.page(frame).slot_count();
    let was_rightmost = pos == count;
    let entry = encode_internal_entry(child, separator.as_slice());
    proof {
        lemma_internal_entry(child.0, separator@);
    }
    proof {
        if separator_fits(s, child.0, separator@, key, lo, hi) {
            lemma_separator_position(s, separator@, pos as int, found, child_index(s, key), lo, hi);
        }
    }
    if count == 0 {
        // an empty node may hold only stranded bytes: reclaim them first
        pool.page_mut(frame).compact();
        proof {
            assert(records_of(pool.pages()[p]) =~= records_of(s));
        }
    }
    let attempt = pool.page_mut(frame).insert_slot_at(pos, entry.as_slice());
    match attempt {
        Ok(()) => {
            let ghost t = pool.frame_page(frame as int);
            proof {
                assert forall|i: int| 0 <= i < slot_count_of(t) implies (#[trigger] records_of(t)[i]) is Some
                    && records_of(t)[i]->0.len() >= CHILD_SIZE by {
                    if i < pos {
                        assert(records_of(t)[i] == records_of(s)[i]);
                    } else if i > pos {
                        assert(records_of(t)[i] == records_of(s)[i - 1]);
                    }
                }
                assert(node_ok(t));
            }
            if was_rightmost {
                pool.page_mut(frame).set_rightmost_child(right);
            } else {
                let set = pool.page_mut(frame).set_internal_child(pos + 1, right);
                proof {
                    if let Err(Error::NoSuchSlot(x)) = set {
                        assert(false);
                    }
                }
            }
            let ghost u = pool.frame_page(frame as int);
            release(pool, frame);
            proof {
                assert(pool.pages() == pages0.update(p, u));
                lemma_nodes_frame_update(pages0, pages0, p, u);
                lemma_leaves_kept_update(pages0, pages0, p, u);
                if separator_fits(s, child.0, separator@, key, lo, hi) && right.0 != NO_PAGE {
                    assert(node_ok(u));
                    lemma_parent_in_place(s, t, u, pos as int, child.0, separator@, right.0, key, lo, hi);
                    assert(pool.pages()[p] == u);
                    assert forall|k: Seq<u8>| above(k, lo) && below(k, hi) implies routes(
                        pool.pages(),
                        target_of(None, p, k),
                        k,
                        #[trigger] new_child_for(s, key, separator@, right.0, k),
                    ) by {
                        assert(next_on_path(u, k) == new_child_for(s, key, separator@, right.0, k));
                    }
                }
            }
            Ok(None)
        },
        Err(Error::PageFull { size, free }) => {
            proof {
                assert(pool.pages() =~= pages0);
            }
            split_internal(pool, frame, page_id, pos, entry, was_rightmost, right, Ghost(child.0), Ghost(separator@), Ghost(key), Ghost(lo), Ghost(hi))
        },
        Err(e) => {
            release(pool, frame);
            Err(e)
        },
    }
}

/// Inserts `key` with `record` into the subtree under `page_id`. When the
/// node there split, returns the separator and the new right sibling for
/// its parent. `fuel` bounds the depth: a deeper descent went round a cycle
/// of a damaged file.
fn insert_into(
    pool: &mut BufferPool,
    page_id: PageId,
    key: &[u8],
    record: RecordId,
    fuel: u64,
    Ghost(lo): Ghost<Option<Seq<u8>>>,
    Ghost(hi): Ghost<Option<Seq<u8>>>,
) -> (r: Result<Option<(Vec<u8>, PageId)>>)
    requires
        tree_ready(old(pool)),
        RID_SIZE + key@.len() <= MAX_RECORD,
        old(pool).pages().len() + fuel + 2 < usize::MAX,
        old(pool).pages().len() + fuel + 2 <= u64::MAX,
    ensures
        tree_ready(final(pool)),
        final(pool).frame_count() == old(pool).frame_count(),
        nodes_frame(old(pool).pages(), final(pool).pages()),
        final(pool).pages().len() <= old(pool).pages().len() + fuel + 1,
        r matches Ok(Some(_)) ==> final(pool).pages().len() > old(pool).pages().len(),
        path_ranged(old(pool).pages(), page_id.0 as int, key@, lo, hi, fuel as nat) ==> (r matches Ok(
            split,
        ) ==> landed(old(pool).pages(), final(pool).pages(), page_id.0 as int, key@, record, split, lo, hi, fuel as nat)),
        r is Ok ==> final(pool).pages().len() == old(pool).pages().len() ==> (descend(
            old(pool).pages(),
            page_id.0 as int,
            key@,
            fuel as nat,
        ) matches Some(leaf) ==> leaf_updated(old(pool).pages(), final(pool).pages(), leaf, key@, Some(record))),
        match r {
            Ok(split) => has_entry(final(pool).pages(), key@, record) && split_ok(split),
            Err(Error::BufferPoolFull) => old(pool).frame_count() < 2,
            Err(e) => e is PageFull || corrupt_error(e),
        },
        path_ranged(old(pool).pages(), page_id.0 as int, key@, lo, hi, fuel as nat) && (descend(
            old(pool).pages(),
            page_id.0 as int,
            key@,
            fuel as nat,
        ) matches Some(leaf) && leaf_has_room(old(pool).pages()[leaf], key@)) ==> r matches Ok(None),
        is_leaf_page(old(pool).pages()[page_id.0 as int]) ==> (r matches Ok(Some(x)) ==> leaf_split_linked(
            old(pool).pages(),
            final(pool).pages(),
            page_id.0 as int,
            x.0@,
            x.1.0 as int,
        )),
        old(pool).frame_count() >= 2 && path_ranged(old(pool).pages(), page_id.0 as int, key@, lo, hi, fuel as nat)
            && path_small(old(pool).pages(), page_id.0 as int, key@, fuel as nat) && RID_SIZE + key@.len()
            <= small_entry() ==> (r matches Ok(split) && split_small(split)),
    decreases fuel,
{
    let ghost pages0 = pool.pages();
    proof {
        lemma_nodes_frame_refl(pages0);
    }
    let frame = match fetch_node(pool, page_id) {
        Ok(f) => f,
        Err(e) => return Err(e),
    };
    if pool.page(frame).is_leaf() {
        let r = insert_into_leaf(pool, frame, page_id, key, record, Ghost(lo), Ghost(hi));
        proof {
            if path_ranged(pages0, page_id.0 as int, key@, lo, hi, fuel as nat) {
                if r is Ok {
                    lemma_leaf_landed(pages0, pool.pages(), page_id.0 as int, key@, record, r->Ok_0, lo, hi, fuel as nat);
                }
            }
        }
        return r;
    }
    let child_slot = match pool.page(frame).child_slot_for_key(key) {
        Ok(c) => c,
        Err(e) => {
            release(pool, frame);
            return Err(e);
        },
    };
    let child = match pool.page(frame).child_at(child_slot) {
        Ok(c) => c,
        Err(e) => {
            release(pool, frame);
            return Err(e);
        },
    };
    proof {
        if descend(pages0, page_id.0 as int, key@, fuel as nat) is Some {
            lemma_child_bound_unique(pages0[page_id.0 as int], key@, child_slot as int);
        }
    }
    let ghost s = pages0[page_id.0 as int];
    proof {
        if path_ranged(pages0, page_id.0 as int, key@, lo, hi, fuel as nat) {
            lemma_path_ranged_descends(pages0, page_id.0 as int, key@, lo, hi, fuel as nat);
            lemma_child_bound_unique(s, key@, child_slot as int);
            assert(child.0 as int == next_on_path(s, key@));
        }
    }
    let ghost clo = child_lo(s, child_slot as int, lo);
    let ghost chi = child_hi(s, child_slot as int, hi);
    release(pool, frame);
    if fuel == 0 {
        return Err(Error::CorruptPage(page_id.0));
    }
    let split = match insert_into(pool, child, key, record, fuel - 1, Ghost(clo), Ghost(chi)) {
        Ok(x) => x,
        Err(e) => return Err(e),
    };
    let ghost pages1 = pool.pages();
    let ghost split1 = split;
    match split {
        None => {
            proof {
                if path_ranged(pages0, page_id.0 as int, key@, lo, hi, fuel as nat) {
                    let p = page_id.0 as int;
                    assert(!on_path(pages0, child.0 as int, key@, (fuel - 1) as nat, p));
                    assert(pages1[p] == s);
                    lemma_step_landed(pages0, pages1, pages1, p, child.0 as int, key@, record, split1, None, lo, hi, fuel as nat);
                }
            }
            Ok(None)
        },
        Some((separator, right)) => {
            let r = insert_separator(pool, page_id, child, separator, right, Ghost(key@), Ghost(lo), Ghost(hi));
            proof {
                lemma_frames_trans(pages0, pages1, pool.pages());
                if r is Ok {
                    lemma_has_entry_kept(pages1, pool.pages(), key@, record);
                }
                if path_ranged(pages0, page_id.0 as int, key@, lo, hi, fuel as nat) {
                    let p = page_id.0 as int;
                    assert(!on_path(pages0, child.0 as int, key@, (fuel - 1) as nat, p));
                    assert(pages1[p] == s);
                    if r is Ok {
                        lemma_step_landed(pages0, pages1, pool.pages(), p, child.0 as int, key@, record, split1, r->Ok_0, lo, hi, fuel as nat);
                    }
                }
            }
            r
        },
    }
}

impl BTree {
    /// Maps `key` to `record`, replacing the record id of a key already
    /// there. A key too long for an entry of an empty leaf is refused.
    #[verifier::spinoff_prover]
    pub fn insert(&mut self, key: &[u8], record: RecordId) -> (r: Result<()>)
        requires
            old(self).wf(),
            2 * old(self).pages().len() + 2 < usize::MAX,
            2 * old(self).pages().len() + 2 <= u64::MAX,
            RID_SIZE + key@.len() + SLOT_SIZE <= usize::MAX,
        ensures
            final(self).wf(),
            final(self).pool.frame_count() == old(self).pool.frame_count(),
            nodes_frame(old(self).pages(), final(self).pages()),
            final(self).pages().len() <= 2 * old(self).pages().len() + 2,
            r is Ok ==> final(self).pages().len() == old(self).pages().len() ==> (descend(
                old(self).pages(),
                meta_root(old(self).pages()[0]) as int,
                key@,
                old(self).pages().len(),
            ) matches Some(leaf) ==> leaf_updated(
                old(self).pages(),
                final(self).pages(),
                leaf,
                key@,
                Some(record),
            )),
            r is Ok ==> search_path_ordered(old(self).pages(), key@) ==> tree_lookup(final(self).pages(), key@)
                == Some(Some(record)),
            forall|k: Seq<u8>|
                r is Ok && k != key@ && search_path_ordered(old(self).pages(), key@) && search_path_ordered(
                    old(self).pages(),
                    k,
                ) && apart(
                    old(self).pages(),
                    meta_root(old(self).pages()[0]) as int,
                    key@,
                    k,
                    old(self).pages().len(),
                ) ==> #[trigger] tree_lookup(final(self).pages(), k) == tree_lookup(old(self).pages(), k),
            RID_SIZE + key@.len() > MAX_RECORD ==> r == Err::<(), Error>(
                Error::PageFull {
                    size: (RID_SIZE + key@.len() + SLOT_SIZE) as usize,
                    free: (PAGE_SIZE - crate::page::slotted::HEADER_SIZE) as usize,
                },
            ) && final(self).pages() == old(self).pages(),
            r is Ok && final(self).pages().len() == old(self).pages().len() && tree_valid(old(self).pages())
                ==> tree_valid(final(self).pages()),
            search_path_ordered(old(self).pages(), key@) ==> (descend(
                old(self).pages(),
                meta_root(old(self).pages()[0]) as int,
                key@,
                old(self).pages().len(),
            ) matches Some(leaf) ==> (leaf_has_room(old(self).pages()[leaf], key@) ==> r is Ok)),
            old(self).pool.frame_count() >= 2 && search_path_ordered(old(self).pages(), key@) && path_small(
                old(self).pages(),
                meta_root(old(self).pages()[0]) as int,
                key@,
                old(self).pages().len(),
            ) && RID_SIZE + key@.len() <= small_entry() ==> r is Ok,
            match r {
                Ok(()) => has_entry(final(self).pages(), key@, record),
                Err(Error::BufferPoolFull) => old(self).pool.frame_count() < 2,
                Err(e) => e is PageFull || corrupt_error(e),
            },
    {
        let ghost pages0 = self.pages();
        proof {
            lemma_nodes_frame_refl(pages0);
        }
        if key.len() > MAX_RECORD - RID_SIZE {
            proof {
                let root_at = meta_root(pages0[0]) as int;
                if search_path_ordered(pages0, key@) {
                    lemma_path_ranged_descends(pages0, root_at, key@, None, None, pages0.len());
                    let leaf = descend(pages0, root_at, key@, pages0.len())->0;
                    crate::btree::tree::lemma_descend_leaf(pages0, root_at, key@, pages0.len());
                    let sl = pages0[leaf];
                    if exists|i: int| 0 <= i < slot_count_of(sl) && #[trigger] node_key(sl, i) == key@ {
                        let i = choose|i: int| 0 <= i < slot_count_of(sl) && #[trigger] node_key(sl, i) == key@;
                        lemma_record_len(sl, i);
                        assert(records_of(sl)[i] is Some);
                    }
                    assert(!leaf_has_room(sl, key@));
                }
            }
            return Err(
                Error::PageFull {
                    size: RID_SIZE + key.len() + SLOT_SIZE,
                    free: PAGE_SIZE - crate::page::slotted::HEADER_SIZE,
                },
            );
        }
        let root = match self.root() {
            Ok(r) => r,
            Err(e) => return Err(e),
        };
        let fuel = match self.pool.page_count() {
            Ok(c) => c,
            Err(e) => return Err(e),
        };
        let split = match insert_into(&mut self.pool, root, key, record, fuel, Ghost(None), Ghost(None)) {
            Ok(x) => x,
            Err(e) => return Err(e),
        };
        let ghost pages1 = self.pages();
        let ghost root_at = meta_root(pages0[0]) as int;
        proof {
            if search_path_ordered(pages0, key@) && split is Some {
                assert(on_path(pages0, root_at, key@, pages0.len(), root_at));
            }
            if search_path_ordered(pages0, key@) {
                lemma_path_ranged_descends(pages0, root_at, key@, None, None, pages0.len());
                if on_path(pages0, root_at, key@, pages0.len(), 0) {
                    lemma_on_path_ordered(pages0, root_at, key@, pages0.len(), 0);
                }
                assert(pages1[0] == pages0[0]);
            }
        }
        let (separator, right) = match split {
            None => {
                proof {
                    if search_path_ordered(pages0, key@) {
                        lemma_descend_more_fuel(pages1, root_at, key@, pages0.len(), pages1.len());
                        assert forall|k: Seq<u8>|
                            k != key@ && search_path_ordered(pages0, k) && apart(pages0, root_at, key@, k, pages0.len())
                                implies #[trigger] tree_lookup(pages1, k) == tree_lookup(pages0, k) by {
                            assert(kept_for(pages0, pages1, root_at, key@, k, split, pages0.len()));
                            lemma_root_kept(pages0, pages1, k);
                        }
                    }
                    if tree_valid(pages0) && pages1.len() == pages0.len() {
                        law_valid_tree_paths(pages0, key@, key@);
                        lemma_path_ranged_descends(pages0, root_at, key@, None, None, pages0.len());
                        let leaf = descend(pages0, root_at, key@, pages0.len())->0;
                        law_leaf_update_keeps_valid(pages0, pages1, leaf, key@, Some(record));
                    }
                }
                return Ok(());
            },
            Some(x) => x,
        };
        proof {
            self.pool.lemma_unpinned_has_free_frame();
        }
        let (new_root_id, new_root_frame) = match self.pool.new_page() {
            Ok(x) => x,
            Err(e) => {
                assert(false);
                return Err(e);
            },
        };
        let mut page = Page::new();
        page.init_internal(right);
        let entry = encode_internal_entry(root, separator.as_slice());
        proof {
            lemma_internal_entry(root.0, separator@);
        }
        let appended = page.append_slot(entry.as_slice());
        let ghost np = page@;
        write_frame(&mut self.pool, new_root_frame, page);
        release(&mut self.pool, new_root_frame);
        let ghost pages2 = self.pages();
        proof {
            lemma_frames_push(pages1, pages1, zero_page());
            lemma_nodes_frame_refl(pages1);
            assert(pages2 == pages1.push(zero_page()).update(new_root_id.0 as int, np));
            lemma_nodes_frame_update(pages1, pages1.push(zero_page()), new_root_id.0 as int, np);
            lemma_leaves_kept_update(pages1, pages1.push(zero_page()), new_root_id.0 as int, np);
            assert(pages_ok(pages2)) by {
                assert forall|q: int| 1 <= q < pages2.len() implies page_ok(#[trigger] pages2[q]) by {
                    if q != new_root_id.0 {
                        assert(pages2[q] == pages1[q]);
                    }
                }
            }
        }
        match appended {
            Ok(_) => {},
            Err(e) => {
                assert(false);
                return Err(e);
            },
        }
        let _ = self.set_root(new_root_id);
        proof {
            if search_path_ordered(pages0, key@) {
                assert(records_of(np) == seq![Some(entry@)]);
                lemma_root_split_lands(pages1, self.pages(), np, root.0, separator@, right.0, key@, Some(Some(record)), pages0.len());
                assert forall|k: Seq<u8>|
                    k != key@ && search_path_ordered(pages0, k) && apart(pages0, root_at, key@, k, pages0.len())
                        implies #[trigger] tree_lookup(self.pages(), k) == tree_lookup(pages0, k) by {
                    assert(kept_for(pages0, pages1, root_at, key@, k, split, pages0.len()));
                    lemma_path_ranged_descends(pages0, root_at, k, None, None, pages0.len());
                    lemma_root_split_lands(pages1, self.pages(), np, root.0, separator@, right.0, k, tree_lookup(pages0, k), pages0.len());
                }
            }
            lemma_frames_trans(pages0, pages1, pages2);
            lemma_frames_trans(pages0, pages2, self.pages());
            lemma_frames_trans(pages1, pages2, self.pages());
            lemma_has_entry_kept(pages1, self.pages(), key@, record);
        }
        Ok(())
    }
}

} // verus!
