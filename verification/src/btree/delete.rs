//! Deletion from the B+tree: out of the leaf that the key leads to, then,
//! on the way back up, an underfull child is merged into a sibling when the
//! two fit in one page, and a root left with one child hands over to it.

use crate::btree::key::{key_le, key_lt, lemma_le_le, lemma_lt_le, lemma_key_lt_asymmetric, lemma_key_lt_irreflexive, lemma_key_lt_total, lemma_key_lt_transitive};
use crate::btree::node::{entries_size, lemma_entries_size_grows, RID_SIZE, CHILD_SIZE, NO_PAGE, child_at_spec, internal_entry, lemma_internal_entry, underfull, keys_sorted, node_keys, is_leaf_page, is_internal_page, append_entries, encode_internal_entry, merged_fits, node_key, node_ok, entry_header, leaf_rid};
use crate::btree::tree::{lemma_descend_on_path, search_path_ordered, fresh_pages, tree_lookup, above, apart, below, child_bound, child_hi, child_index, child_lo, keys_within, lemma_child_bound_exists, lemma_descend_agree, lemma_descend_more_fuel, lemma_on_path_ordered, lemma_path_ranged_descends, lookup_from, next_on_path, on_path, path_ranged, descend, lemma_child_bound_unique, lemma_leaf_find_at, leaf_find, leaf_updated, ordered_node, corrupt_error, fetch_node, has_entry, leaf_has, lemma_frames_trans, lemma_nodes_frame_refl, lemma_nodes_frame_update, nodes_frame, release, tree_ready, BTree};
use crate::buffer::BufferPool;
use crate::error::{Error, Result};
use crate::page::slotted::{link_of, page_type_of, entry_of, free_bytes_of, frag_bytes_of, HEADER_SIZE, SLOT_SIZE, lemma_record_len, page_ok, pages_ok, records_of, slot_count_of, slotted_wf, live_size};
use crate::page::meta::meta_root;
use crate::page::{lemma_page_len, PageId, RecordId, PAGE_SIZE};
use vstd::prelude::*;

verus! {

broadcast use lemma_page_len;

/// The errors that deleting from a damaged tree can lead to.
pub open spec fn delete_error(e: Error) -> bool {
    corrupt_error(e) || e is NoSuchSlot || e is SlotDeleted || e is PageFull
}

/// Taking `key` out of leaf `s`, if it is there, leaves the leaf at least
/// half full, so no merge follows.
pub open spec fn removal_keeps_leaf_full(s: Seq<u8>, key: Seq<u8>) -> bool {
    if exists|i: int| 0 <= i < slot_count_of(s) && #[trigger] node_key(s, i) == key {
        let i = choose|i: int| 0 <= i < slot_count_of(s) && #[trigger] node_key(s, i) == key;
        free_bytes_of(s) + frag_bytes_of(s) + SLOT_SIZE + entry_of(s, i).1 <= (PAGE_SIZE
            - HEADER_SIZE) / 2
    } else {
        !underfull(s)
    }
}

/// A leaf entry taken out keeps the keys in order; lookups no longer find
/// its key and find the rest as before.
#[verifier::spinoff_prover]
#[verifier::rlimit(30)]
proof fn lemma_leaf_removed(s: Seq<u8>, t: Seq<u8>, slot: int, key: Seq<u8>)
    requires
        node_ok(s),
        is_leaf_page(s),
        keys_sorted(node_keys(s)),
        0 <= slot < slot_count_of(s),
        node_key(s, slot) == key,
        node_ok(t),
        is_leaf_page(t),
        records_of(t) == records_of(s).remove(slot),
    ensures
        keys_sorted(node_keys(t)),
        forall|k: Seq<u8>|
            #[trigger] leaf_find(t, k) == if k == key {
                None
            } else {
                leaf_find(s, k)
            },
        forall|i: int|
            0 <= i < slot_count_of(t) ==> #[trigger] node_key(t, i) == node_key(s, if i < slot {
                i
            } else {
                i + 1
            }),
{
    let n = slot_count_of(s) as int;
    assert(slot_count_of(t) == n - 1) by {
        assert(records_of(t).len() == n - 1);
    }
    assert forall|i: int| 0 <= i < slot implies #[trigger] node_key(t, i) == node_key(s, i) && leaf_rid(t, i) == leaf_rid(s, i) by {
        assert(records_of(t)[i] == records_of(s)[i]);
    }
    assert forall|i: int| slot <= i < n - 1 implies #[trigger] node_key(t, i) == node_key(s, i + 1) && leaf_rid(t, i) == leaf_rid(s, i + 1) by {
        assert(records_of(t)[i] == records_of(s)[i + 1]);
    }
    assert(keys_sorted(node_keys(t))) by {
        assert forall|i: int, j: int| 0 <= i < j < node_keys(t).len() implies key_lt(
            #[trigger] node_keys(t)[i],
            #[trigger] node_keys(t)[j],
        ) by {
            assert(node_keys(t)[i] == node_key(t, i));
            assert(node_keys(t)[j] == node_key(t, j));
            let si = if i < slot { i } else { i + 1 };
            let sj = if j < slot { j } else { j + 1 };
            assert(key_lt(node_keys(s)[si], node_keys(s)[sj]));
        }
    }
    assert forall|k: Seq<u8>|
        #[trigger] leaf_find(t, k) == if k == key {
            None
        } else {
            leaf_find(s, k)
        } by {
        if k == key {
            assert forall|i: int| 0 <= i < n - 1 implies #[trigger] node_key(t, i) != k by {
                let si = if i < slot { i } else { i + 1 };
                assert(node_key(t, i) == node_key(s, si));
                if si < slot {
                    assert(key_lt(node_keys(s)[si], node_keys(s)[slot]));
                } else {
                    assert(key_lt(node_keys(s)[slot], node_keys(s)[si]));
                }
                lemma_key_lt_irreflexive(key);
            }
        } else if exists|i: int| 0 <= i < n && #[trigger] node_key(s, i) == k {
            let i = choose|i: int| 0 <= i < n && #[trigger] node_key(s, i) == k;
            lemma_leaf_find_at(s, k, i);
            assert(i != slot);
            if i < slot {
                lemma_leaf_find_at(t, k, i);
            } else {
                lemma_leaf_find_at(t, k, i - 1);
            }
        } else {
            assert forall|i: int| 0 <= i < n - 1 implies #[trigger] node_key(t, i) != k by {
                if i < slot {
                    assert(node_key(t, i) == node_key(s, i));
                } else {
                    assert(node_key(t, i) == node_key(s, i + 1));
                }
            }
        }
    }
}

/// Node `m` is node `l` merged with its right sibling `r`: the entries of
/// both, with the separator `sep` between them pulled down between them for
/// internal nodes, linking on where `r` linked.
pub open spec fn merged_node(l: Seq<u8>, r: Seq<u8>, sep: Seq<u8>, m: Seq<u8>) -> bool {
    &&& slotted_wf(m)
    &&& page_type_of(m) == page_type_of(l)
    &&& link_of(m) == link_of(r)
    &&& records_of(m) == (if is_leaf_page(l) {
        records_of(l) + records_of(r)
    } else {
        records_of(l) + seq![Some(internal_entry(link_of(l), sep))] + records_of(r)
    })
}

/// Node `t` is internal node `s` without entry `ls`, with the child after
/// it replaced by `l`, the merge of the two children around that entry.
pub open spec fn parent_dropped(s: Seq<u8>, ls: int, l: u64, t: Seq<u8>) -> bool {
    &&& slotted_wf(t)
    &&& page_type_of(t) == page_type_of(s)
    &&& if ls + 1 < slot_count_of(s) {
        &&& records_of(t) == records_of(s).remove(ls).update(
            ls,
            Some(internal_entry(l, node_key(s, ls + 1))),
        )
        &&& link_of(t) == link_of(s)
    } else {
        &&& records_of(t) == records_of(s).remove(ls)
        &&& link_of(t) == l
    }
}

/// Pages `b` are pages `a` with children `ls` and `ls + 1` of internal node
/// `p` merged into the first, and `p` left without the entry between them.
pub open spec fn merged_at(a: Seq<Seq<u8>>, b: Seq<Seq<u8>>, p: int, ls: int) -> bool {
    let s = a[p];
    let l = child_at_spec(s, ls) as int;
    let r = child_at_spec(s, ls + 1) as int;
    &&& node_ok(s)
    &&& is_internal_page(s)
    &&& 0 <= ls < slot_count_of(s)
    &&& 1 <= l < a.len()
    &&& 1 <= r < a.len()
    &&& is_leaf_page(a[l]) == is_leaf_page(a[r])
    &&& b == a.update(l, b[l]).update(p, b[p])
    &&& merged_node(a[l], a[r], node_key(s, ls), b[l])
    &&& parent_dropped(s, ls, l as u64, b[p])
}

/// Whether child `ls + 1` of node `p` fits into child `ls`: its live
/// bytes, and for internal children the separator pulled down with a slot,
/// within the free and stranded bytes of the left child. `None` where `p` is
/// not an internal node with an entry `ls`, or either child is not a node.
pub open spec fn pair_fits(pages: Seq<Seq<u8>>, p: int, ls: int) -> Option<bool> {
    let s = pages[p];
    let l = child_at_spec(s, ls) as int;
    let r = child_at_spec(s, ls + 1) as int;
    if 1 <= p < pages.len() && node_ok(s) && is_internal_page(s) && 0 <= ls < slot_count_of(s) && 1 <= l
        < pages.len() && node_ok(pages[l]) && 1 <= r < pages.len() && node_ok(pages[r]) {
        let extra: int = if is_leaf_page(pages[l]) {
            0
        } else {
            CHILD_SIZE + node_key(s, ls).len() + SLOT_SIZE
        };
        Some(live_size(records_of(pages[r])) + extra <= free_bytes_of(pages[l]) + frag_bytes_of(pages[l]))
    } else {
        None
    }
}

/// A merge of children `ls` and `ls + 1` of node `p` is owed: the pair
/// fits, the two children are distinct pages of one kind, and neither is
/// the parent itself.
pub open spec fn merge_owed(pages: Seq<Seq<u8>>, p: int, ls: int) -> bool {
    let l = child_at_spec(pages[p], ls) as int;
    let r = child_at_spec(pages[p], ls + 1) as int;
    &&& pair_fits(pages, p, ls) == Some(true)
    &&& l != p
    &&& r != p
    &&& l != r
    &&& is_leaf_page(pages[l]) == is_leaf_page(pages[r])
}

/// The live bytes of records that all hold entries are the bytes those
/// entries take.
proof fn lemma_live_size_entries(rs: Seq<Option<Seq<u8>>>, es: Seq<Vec<u8>>, m: int)
    requires
        0 <= m <= rs.len(),
        rs.len() == es.len(),
        forall|k: int| 0 <= k < rs.len() ==> #[trigger] rs[k] == Some(es[k]@),
    ensures
        live_size(rs.take(m)) == entries_size(es, m),
    decreases m,
{
    if m > 0 {
        lemma_live_size_entries(rs, es, m - 1);
        assert(rs.take(m).drop_last() =~= rs.take(m - 1));
        assert(rs.take(m).last() == rs[m - 1]);
    }
}

/// The left slot of the pair that rebalancing child `c` of node `p` merges:
/// the child with its right sibling if they fit, else with its left one if
/// those fit, else none.
pub open spec fn rebalance_plan(pages: Seq<Seq<u8>>, p: int, c: int) -> Option<int> {
    if c < slot_count_of(pages[p]) && pair_fits(pages, p, c) == Some(true) {
        Some(c)
    } else if c >= 1 && pair_fits(pages, p, c - 1) == Some(true) {
        Some(c - 1)
    } else {
        None
    }
}

/// Along the search path for `key` from `pid`, through at most `fuel`
/// internal nodes, the child the path takes and its neighbours on either
/// side are of one kind, as in a tree whose leaves all lie at one depth.
pub open spec fn path_alike(pages: Seq<Seq<u8>>, pid: int, key: Seq<u8>, fuel: nat) -> bool
    decreases fuel,
{
    let s = pages[pid];
    let c = child_index(s, key);
    let kind = is_leaf_page(pages[child_at_spec(s, c) as int]);
    !is_leaf_page(s) && fuel > 0 ==> {
        &&& c < slot_count_of(s) ==> is_leaf_page(pages[child_at_spec(s, c + 1) as int]) == kind
        &&& c >= 1 ==> is_leaf_page(pages[child_at_spec(s, c - 1) as int]) == kind
        &&& path_alike(pages, next_on_path(s, key), key, (fuel - 1) as nat)
    }
}

/// Rebalancing child `c` of node `p` is owed success: `p` is a node, the
/// pairs it weighs can be weighed, and the merge it picks is owed.
pub open spec fn rebalance_owed(pages: Seq<Seq<u8>>, p: int, c: int) -> bool {
    &&& 1 <= p < pages.len()
    &&& node_ok(pages[p])
    &&& c < slot_count_of(pages[p]) ==> pair_fits(pages, p, c) is Some
    &&& c >= 1 && !(c < slot_count_of(pages[p]) && pair_fits(pages, p, c) == Some(true)) ==> pair_fits(
        pages,
        p,
        c - 1,
    ) is Some
    &&& rebalance_plan(pages, p, c) matches Some(ls) ==> merge_owed(pages, p, ls)
}

/// Pages `b` are pages `a`, or have child `c` of node `p` merged with a
/// sibling: with the one after it, or with the one before it -- unless the
/// node names itself as such a child.
pub open spec fn rebalanced(a: Seq<Seq<u8>>, b: Seq<Seq<u8>>, p: int, c: int) -> bool {
    ||| b == a
    ||| merged_at(a, b, p, c)
    ||| c >= 1 && merged_at(a, b, p, c - 1)
    ||| child_at_spec(a[p], c) == p
    ||| c >= 1 && child_at_spec(a[p], c - 1) == p
}

/// `k` lies in `[lo, hi)`.
pub open spec fn in_range(k: Seq<u8>, lo: Option<Seq<u8>>, hi: Option<Seq<u8>>) -> bool {
    above(k, lo) && below(k, hi)
}

/// Some key lies in `[lo, x)`.
pub open spec fn room_below(lo: Option<Seq<u8>>, x: Seq<u8>) -> bool {
    match lo {
        Some(l) => key_lt(l, x),
        None => x.len() > 0,
    }
}

/// Along the search path for `k` from `pid`, the first key of every
/// internal node lies strictly above the node's lower bound, as the
/// separators that splits hand up do.
pub open spec fn path_roomy(pages: Seq<Seq<u8>>, pid: int, k: Seq<u8>, lo: Option<Seq<u8>>, hi: Option<Seq<u8>>, fuel: nat) -> bool
    decreases fuel,
{
    let s = pages[pid];
    let c = child_index(s, k);
    if is_leaf_page(s) || fuel == 0 {
        true
    } else {
        &&& slot_count_of(s) > 0 ==> room_below(lo, node_key(s, 0))
        &&& path_roomy(pages, next_on_path(s, k), k, child_lo(s, c, lo), child_hi(s, c, hi), (fuel - 1) as nat)
    }
}

/// The subtree under `pid`, for the keys in `[lo, hi)`, is a well-formed
/// B+tree: every such key has an ordered search path, internal nodes leave
/// room below their first key, and the paths of two keys, once they part,
/// never meet again.
pub open spec fn subtree_valid(pages: Seq<Seq<u8>>, pid: int, lo: Option<Seq<u8>>, hi: Option<Seq<u8>>, fuel: nat) -> bool {
    &&& forall|k: Seq<u8>| in_range(k, lo, hi) ==> #[trigger] path_ranged(pages, pid, k, lo, hi, fuel)
    &&& forall|k: Seq<u8>| in_range(k, lo, hi) ==> #[trigger] path_roomy(pages, pid, k, lo, hi, fuel)
    &&& forall|k1: Seq<u8>, k2: Seq<u8>|
        in_range(k1, lo, hi) && in_range(k2, lo, hi) ==> #[trigger] apart(pages, pid, k1, k2, fuel)
}

/// The tree is a well-formed B+tree.
pub open spec fn tree_valid(pages: Seq<Seq<u8>>) -> bool {
    subtree_valid(pages, meta_root(pages[0]) as int, None, None, pages.len())
}

/// In a well-formed tree every search path is in order, and the paths of
/// any two keys, once they part, never meet again -- what the laws of
/// insertion ask of the keys they speak of.
pub proof fn law_valid_tree_paths(pages: Seq<Seq<u8>>, k1: Seq<u8>, k2: Seq<u8>)
    requires
        tree_valid(pages),
    ensures
        search_path_ordered(pages, k1),
        apart(pages, meta_root(pages[0]) as int, k1, k2, pages.len()),
{
    assert(path_ranged(pages, meta_root(pages[0]) as int, k1, None, None, pages.len()));
    assert(apart(pages, meta_root(pages[0]) as int, k1, k2, pages.len()));
}

/// A fresh file holds a well-formed tree: its root is an empty leaf.
pub proof fn law_fresh_tree_valid(pages: Seq<Seq<u8>>)
    requires
        fresh_pages(pages),
    ensures
        tree_valid(pages),
{
    let root = meta_root(pages[0]) as int;
    assert(keys_sorted(node_keys(pages[1]))) by {
        assert(node_keys(pages[1]).len() == 0);
    }
    assert forall|k: Seq<u8>| in_range(k, None, None) implies #[trigger] path_ranged(pages, root, k, None, None, pages.len()) by {
        assert(keys_within(pages[1], None, None));
    }
}

/// Changing one ordered leaf into another moves no page on or off a search
/// path.
proof fn lemma_on_path_frame(a: Seq<Seq<u8>>, b: Seq<Seq<u8>>, leaf: int, key: Seq<u8>, found: Option<RecordId>, p: int, k: Seq<u8>, fuel: nat, q: int)
    requires
        leaf_updated(a, b, leaf, key, found),
    ensures
        on_path(b, p, k, fuel, q) == on_path(a, p, k, fuel, q),
    decreases fuel,
{
    if 1 <= p < a.len() && p != leaf {
        assert(b[p] == a[p]);
    }
    if fuel > 0 {
        lemma_on_path_frame(a, b, leaf, key, found, next_on_path(a[p], k), k, (fuel - 1) as nat, q);
    }
}

/// Changing one ordered leaf into another leaves the room below the first
/// keys of internal nodes as it was.
proof fn lemma_roomy_frame(a: Seq<Seq<u8>>, b: Seq<Seq<u8>>, leaf: int, key: Seq<u8>, found: Option<RecordId>, p: int, k: Seq<u8>, lo: Option<Seq<u8>>, hi: Option<Seq<u8>>, fuel: nat)
    requires
        leaf_updated(a, b, leaf, key, found),
        path_ranged(a, p, k, lo, hi, fuel),
    ensures
        path_roomy(b, p, k, lo, hi, fuel) == path_roomy(a, p, k, lo, hi, fuel),
    decreases fuel,
{
    if p != leaf {
        assert(b[p] == a[p]);
        let s = a[p];
        let c = child_index(s, k);
        if !is_leaf_page(s) && fuel > 0 {
            lemma_roomy_frame(a, b, leaf, key, found, next_on_path(s, k), k, child_lo(s, c, lo), child_hi(s, c, hi), (fuel - 1) as nat);
        }
    }
}

/// Changing one ordered leaf into another keeps apart the search paths
/// that were apart.
proof fn lemma_apart_frame(a: Seq<Seq<u8>>, b: Seq<Seq<u8>>, leaf: int, key: Seq<u8>, found: Option<RecordId>, p: int, k1: Seq<u8>, k2: Seq<u8>, lo: Option<Seq<u8>>, hi: Option<Seq<u8>>, fuel: nat)
    requires
        leaf_updated(a, b, leaf, key, found),
        path_ranged(a, p, k1, lo, hi, fuel),
    ensures
        apart(b, p, k1, k2, fuel) == apart(a, p, k1, k2, fuel),
    decreases fuel,
{
    if p != leaf {
        assert(b[p] == a[p]);
        let s = a[p];
        let c = child_index(s, k1);
        if !is_leaf_page(s) && fuel > 0 {
            let f1 = (fuel - 1) as nat;
            if c == child_index(s, k2) {
                lemma_apart_frame(a, b, leaf, key, found, next_on_path(s, k1), k1, k2, child_lo(s, c, lo), child_hi(s, c, hi), f1);
            } else {
                assert forall|q: int|
                    on_path(b, next_on_path(s, k2), k2, f1, q) == on_path(a, next_on_path(s, k2), k2, f1, q)
                    && on_path(b, next_on_path(s, k1), k1, f1, q) == on_path(a, next_on_path(s, k1), k1, f1, q) by {
                    lemma_on_path_frame(a, b, leaf, key, found, next_on_path(s, k2), k2, f1, q);
                    lemma_on_path_frame(a, b, leaf, key, found, next_on_path(s, k1), k1, f1, q);
                }
            }
        }
    }
}

/// A search path that misses the changed leaf stays in order.
proof fn lemma_ranged_off(a: Seq<Seq<u8>>, b: Seq<Seq<u8>>, leaf: int, key: Seq<u8>, found: Option<RecordId>, p: int, k: Seq<u8>, lo: Option<Seq<u8>>, hi: Option<Seq<u8>>, fuel: nat)
    requires
        leaf_updated(a, b, leaf, key, found),
        path_ranged(a, p, k, lo, hi, fuel),
        !on_path(a, p, k, fuel, leaf),
    ensures
        path_ranged(b, p, k, lo, hi, fuel),
    decreases fuel,
{
    assert(b[p] == a[p]);
    let s = a[p];
    let c = child_index(s, k);
    if !is_leaf_page(s) {
        let f1 = (fuel - 1) as nat;
        let n = next_on_path(s, k);
        lemma_on_path_frame(a, b, leaf, key, found, n, k, f1, p);
        lemma_ranged_off(a, b, leaf, key, found, n, k, child_lo(s, c, lo), child_hi(s, c, hi), f1);
    }
}

/// The changed leaf keeps its keys within the range its search path gives
/// it, when the key it took in belongs there.
proof fn lemma_leaf_within(a: Seq<Seq<u8>>, b: Seq<Seq<u8>>, leaf: int, key: Seq<u8>, found: Option<RecordId>, lo: Option<Seq<u8>>, hi: Option<Seq<u8>>)
    requires
        leaf_updated(a, b, leaf, key, found),
        keys_within(a[leaf], lo, hi),
        above(key, lo),
        below(key, hi),
    ensures
        keys_within(b[leaf], lo, hi),
{
    assert forall|i: int| 0 <= i < slot_count_of(b[leaf]) implies above(#[trigger] node_key(b[leaf], i), lo) && below(
        node_key(b[leaf], i),
        hi,
    ) by {
        let x = node_key(b[leaf], i);
        assert(leaf_find(b[leaf], x) is Some);
        if x != key {
            assert(leaf_find(a[leaf], x) is Some);
            let j = choose|j: int| 0 <= j < slot_count_of(a[leaf]) && #[trigger] node_key(a[leaf], j) == x;
            assert(node_key(a[leaf], j) == x);
        }
    }
}

/// A search path that meets the changed leaf only where the changed key's
/// own path does stays in order.
proof fn lemma_ranged_on(a: Seq<Seq<u8>>, b: Seq<Seq<u8>>, leaf: int, key: Seq<u8>, found: Option<RecordId>, p: int, k: Seq<u8>, lo: Option<Seq<u8>>, hi: Option<Seq<u8>>, fuel: nat)
    requires
        leaf_updated(a, b, leaf, key, found),
        path_ranged(a, p, k, lo, hi, fuel),
        path_ranged(a, p, key, lo, hi, fuel),
        apart(a, p, key, k, fuel),
        descend(a, p, key, fuel) == Some(leaf),
    ensures
        path_ranged(b, p, k, lo, hi, fuel),
    decreases fuel,
{
    if p == leaf {
        lemma_leaf_within(a, b, leaf, key, found, lo, hi);
    } else {
        assert(b[p] == a[p]);
        let s = a[p];
        let f1 = (fuel - 1) as nat;
        let c = child_index(s, k);
        let n = next_on_path(s, k);
        lemma_on_path_frame(a, b, leaf, key, found, n, k, f1, p);
        if child_index(s, key) == c {
            lemma_ranged_on(a, b, leaf, key, found, n, k, child_lo(s, c, lo), child_hi(s, c, hi), f1);
        } else {
            lemma_descend_on_path(a, next_on_path(s, key), key, f1);
            assert(on_path(a, n, k, f1, leaf) ==> !on_path(a, next_on_path(s, key), key, f1, leaf));
            lemma_ranged_off(a, b, leaf, key, found, n, k, child_lo(s, c, lo), child_hi(s, c, hi), f1);
        }
    }
}

/// Changing, in a well-formed tree, only the leaf that a key leads to, so
/// that it holds that key as it likes and every other key as before, keeps
/// the tree well-formed.
pub proof fn law_leaf_update_keeps_valid(a: Seq<Seq<u8>>, b: Seq<Seq<u8>>, leaf: int, key: Seq<u8>, found: Option<RecordId>)
    requires
        tree_valid(a),
        descend(a, meta_root(a[0]) as int, key, a.len()) == Some(leaf),
        leaf_updated(a, b, leaf, key, found),
    ensures
        tree_valid(b),
{
    let root = meta_root(a[0]) as int;
    let n = a.len();
    assert(b[0] == a[0]);
    assert(in_range(key, None, None));
    assert(path_ranged(a, root, key, None, None, n));
    assert forall|k: Seq<u8>| in_range(k, None, None) implies #[trigger] path_ranged(b, root, k, None, None, n) by {
        assert(path_ranged(a, root, k, None, None, n));
        assert(apart(a, root, key, k, n));
        lemma_ranged_on(a, b, leaf, key, found, root, k, None, None, n);
    }
    assert forall|k: Seq<u8>| in_range(k, None, None) implies #[trigger] path_roomy(b, root, k, None, None, n) by {
        assert(path_ranged(a, root, k, None, None, n));
        assert(path_roomy(a, root, k, None, None, n));
        lemma_roomy_frame(a, b, leaf, key, found, root, k, None, None, n);
    }
    assert forall|k1: Seq<u8>, k2: Seq<u8>|
        in_range(k1, None, None) && in_range(k2, None, None) implies #[trigger] apart(b, root, k1, k2, n) by {
        assert(path_ranged(a, root, k1, None, None, n));
        assert(apart(a, root, k1, k2, n));
        lemma_apart_frame(a, b, leaf, key, found, root, k1, k2, None, None, n);
    }
}

/// Page `q` lies in the subtree under `pid`: on the search path of a key
/// within `[lo, hi)`.
pub open spec fn in_subtree(pages: Seq<Seq<u8>>, pid: int, lo: Option<Seq<u8>>, hi: Option<Seq<u8>>, fuel: nat, q: int) -> bool {
    exists|k: Seq<u8>| in_range(k, lo, hi) && #[trigger] on_path(pages, pid, k, fuel, q)
}

/// A key within the bounds of child `c` of an ordered node goes under that
/// child.
proof fn lemma_range_child(s: Seq<u8>, k: Seq<u8>, c: int, lo: Option<Seq<u8>>, hi: Option<Seq<u8>>)
    requires
        keys_sorted(node_keys(s)),
        keys_within(s, lo, hi),
        0 <= c <= slot_count_of(s),
        in_range(k, child_lo(s, c, lo), child_hi(s, c, hi)),
    ensures
        child_index(s, k) == c,
        in_range(k, lo, hi),
{
    let n = slot_count_of(s) as int;
    assert forall|i: int| 0 <= i < c implies key_le(#[trigger] node_key(s, i), k) by {
        if i < c - 1 {
            assert(key_lt(node_keys(s)[i], node_keys(s)[c - 1]));
            lemma_lt_le(node_key(s, i), node_key(s, c - 1), k);
        }
    }
    assert forall|i: int| c <= i < n implies key_lt(k, #[trigger] node_key(s, i)) by {
        if i > c {
            assert(key_lt(node_keys(s)[c], node_keys(s)[i]));
            lemma_key_lt_transitive(k, node_key(s, c), node_key(s, i));
        }
    }
    lemma_child_bound_unique(s, k, c);
    if c > 0 {
        assert(above(node_key(s, c - 1), lo));
        if let Some(l) = lo {
            lemma_le_le(l, node_key(s, c - 1), k);
        }
    }
    if c < n {
        assert(below(node_key(s, c), hi));
        if let Some(u) = hi {
            lemma_key_lt_transitive(k, node_key(s, c), u);
        }
    }
}

/// The subtree under the child that `key` goes under is well formed, lies
/// within the subtree of the node, and does not hold the node.
proof fn lemma_child_valid(a: Seq<Seq<u8>>, pid: int, key: Seq<u8>, lo: Option<Seq<u8>>, hi: Option<Seq<u8>>, fuel: nat)
    requires
        subtree_valid(a, pid, lo, hi, fuel),
        in_range(key, lo, hi),
        !is_leaf_page(a[pid]),
        fuel > 0,
    ensures
        subtree_valid(
            a,
            next_on_path(a[pid], key),
            child_lo(a[pid], child_index(a[pid], key), lo),
            child_hi(a[pid], child_index(a[pid], key), hi),
            (fuel - 1) as nat,
        ),
        forall|q: int|
            in_subtree(
                a,
                next_on_path(a[pid], key),
                child_lo(a[pid], child_index(a[pid], key), lo),
                child_hi(a[pid], child_index(a[pid], key), hi),
                (fuel - 1) as nat,
                q,
            ) ==> #[trigger] in_subtree(a, pid, lo, hi, fuel, q),
        !in_subtree(
            a,
            next_on_path(a[pid], key),
            child_lo(a[pid], child_index(a[pid], key), lo),
            child_hi(a[pid], child_index(a[pid], key), hi),
            (fuel - 1) as nat,
            pid,
        ),
{
    let s = a[pid];
    let c = child_index(s, key);
    let ch = next_on_path(s, key);
    let clo = child_lo(s, c, lo);
    let chi = child_hi(s, c, hi);
    let f1 = (fuel - 1) as nat;
    assert(path_ranged(a, pid, key, lo, hi, fuel));
    lemma_child_bound_exists(s, key);
    assert forall|k: Seq<u8>| in_range(k, clo, chi) implies #[trigger] path_ranged(a, ch, k, clo, chi, f1) && path_roomy(
        a,
        ch,
        k,
        clo,
        chi,
        f1,
    ) && !on_path(a, ch, k, f1, pid) by {
        lemma_range_child(s, k, c, lo, hi);
        assert(path_ranged(a, pid, k, lo, hi, fuel));
        assert(path_roomy(a, pid, k, lo, hi, fuel));
    }
    assert forall|k: Seq<u8>| in_range(k, clo, chi) implies #[trigger] path_roomy(a, ch, k, clo, chi, f1) by {
        assert(path_ranged(a, ch, k, clo, chi, f1));
    }
    assert forall|k1: Seq<u8>, k2: Seq<u8>|
        in_range(k1, clo, chi) && in_range(k2, clo, chi) implies #[trigger] apart(a, ch, k1, k2, f1) by {
        lemma_range_child(s, k1, c, lo, hi);
        lemma_range_child(s, k2, c, lo, hi);
        assert(apart(a, pid, k1, k2, fuel));
    }
    assert forall|q: int| in_subtree(a, ch, clo, chi, f1, q) implies #[trigger] in_subtree(a, pid, lo, hi, fuel, q) by {
        let k = choose|k: Seq<u8>| in_range(k, clo, chi) && #[trigger] on_path(a, ch, k, f1, q);
        lemma_range_child(s, k, c, lo, hi);
        assert(on_path(a, pid, k, fuel, q));
    }
    if in_subtree(a, ch, clo, chi, f1, pid) {
        let k = choose|k: Seq<u8>| in_range(k, clo, chi) && #[trigger] on_path(a, ch, k, f1, pid);
        assert(path_ranged(a, ch, k, clo, chi, f1));
    }
}

/// The sibling after the child that `key` goes under is an ordered node
/// within its bounds, in the subtree of the node but not in that of the
/// child, and not the node itself.
proof fn lemma_right_sibling(a: Seq<Seq<u8>>, pid: int, key: Seq<u8>, lo: Option<Seq<u8>>, hi: Option<Seq<u8>>, fuel: nat)
    requires
        subtree_valid(a, pid, lo, hi, fuel),
        in_range(key, lo, hi),
        !is_leaf_page(a[pid]),
        fuel > 0,
        child_index(a[pid], key) < slot_count_of(a[pid]),
    ensures
        ({
            let s = a[pid];
            let c = child_index(s, key);
            let r = child_at_spec(s, c + 1) as int;
            &&& ordered_node(a, r)
            &&& keys_within(a[r], Some(node_key(s, c)), child_hi(s, c + 1, hi))
            &&& !is_leaf_page(a[r]) && slot_count_of(a[r]) > 0 ==> room_below(
                Some(node_key(s, c)),
                node_key(a[r], 0),
            )
            &&& in_subtree(a, pid, lo, hi, fuel, r)
            &&& !in_subtree(a, next_on_path(s, key), child_lo(s, c, lo), child_hi(s, c, hi), (fuel - 1) as nat, r)
            &&& r != pid
        }),
{
    let s = a[pid];
    let c = child_index(s, key);
    let r = child_at_spec(s, c + 1) as int;
    let f1 = (fuel - 1) as nat;
    let k = node_key(s, c);
    assert(path_ranged(a, pid, key, lo, hi, fuel));
    lemma_child_bound_exists(s, key);
    assert(in_range(k, Some(k), child_hi(s, c + 1, hi))) by {
        if c + 1 < slot_count_of(s) {
            assert(key_lt(node_keys(s)[c], node_keys(s)[c + 1]));
        } else {
            assert(below(node_key(s, c), hi));
        }
    }
    lemma_range_child(s, k, c + 1, lo, hi);
    assert(path_ranged(a, pid, k, lo, hi, fuel));
    assert(path_roomy(a, pid, k, lo, hi, fuel));
    assert(next_on_path(s, k) == r);
    assert(path_ranged(a, r, k, Some(k), child_hi(s, c + 1, hi), f1));
    assert(path_roomy(a, r, k, Some(k), child_hi(s, c + 1, hi), f1));
    assert(on_path(a, r, k, f1, r));
    assert(on_path(a, pid, k, fuel, r));
    assert(in_range(k, lo, hi) && on_path(a, pid, k, fuel, r));
    assert forall|k2: Seq<u8>| in_range(k2, child_lo(s, c, lo), child_hi(s, c, hi)) implies !#[trigger] on_path(
        a,
        next_on_path(s, key),
        k2,
        f1,
        r,
    ) by {
        lemma_range_child(s, k2, c, lo, hi);
        assert(apart(a, pid, k, k2, fuel));
        assert(next_on_path(s, k2) == next_on_path(s, key));
        assert(next_on_path(s, k) == r);
        if on_path(a, next_on_path(s, k2), k2, f1, r) {
            assert(!on_path(a, next_on_path(s, k), k, f1, r));
        }
    }
}

/// The sibling before the child that `key` goes under is an ordered node
/// within its bounds, in the subtree of the node but not in that of the
/// child, and not the node itself.
proof fn lemma_left_sibling(a: Seq<Seq<u8>>, pid: int, key: Seq<u8>, lo: Option<Seq<u8>>, hi: Option<Seq<u8>>, fuel: nat)
    requires
        subtree_valid(a, pid, lo, hi, fuel),
        in_range(key, lo, hi),
        !is_leaf_page(a[pid]),
        fuel > 0,
        child_index(a[pid], key) >= 1,
    ensures
        ({
            let s = a[pid];
            let c = child_index(s, key);
            let l = child_at_spec(s, c - 1) as int;
            &&& ordered_node(a, l)
            &&& keys_within(a[l], child_lo(s, c - 1, lo), Some(node_key(s, c - 1)))
            &&& in_subtree(a, pid, lo, hi, fuel, l)
            &&& !in_subtree(a, next_on_path(s, key), child_lo(s, c, lo), child_hi(s, c, hi), (fuel - 1) as nat, l)
            &&& l != pid
        }),
{
    let s = a[pid];
    let c = child_index(s, key);
    let l = child_at_spec(s, c - 1) as int;
    let f1 = (fuel - 1) as nat;
    assert(path_ranged(a, pid, key, lo, hi, fuel));
    assert(path_roomy(a, pid, key, lo, hi, fuel));
    lemma_child_bound_exists(s, key);
    let k = if c >= 2 {
        node_key(s, c - 2)
    } else {
        match lo {
            Some(x) => x,
            None => Seq::<u8>::empty(),
        }
    };
    assert(in_range(k, child_lo(s, c - 1, lo), Some(node_key(s, c - 1)))) by {
        if c >= 2 {
            assert(key_lt(node_keys(s)[c - 2], node_keys(s)[c - 1]));
        } else {
            assert(room_below(lo, node_key(s, 0)));
            if lo is None {
                assert(key_lt(Seq::<u8>::empty(), node_key(s, 0)));
            }
        }
    }
    lemma_range_child(s, k, c - 1, lo, hi);
    assert(path_ranged(a, pid, k, lo, hi, fuel));
    assert(next_on_path(s, k) == l);
    assert(path_ranged(a, l, k, child_lo(s, c - 1, lo), Some(node_key(s, c - 1)), f1));
    assert(on_path(a, l, k, f1, l));
    assert(on_path(a, pid, k, fuel, l));
    assert(in_range(k, lo, hi) && on_path(a, pid, k, fuel, l));
    assert forall|k2: Seq<u8>| in_range(k2, child_lo(s, c, lo), child_hi(s, c, hi)) implies !#[trigger] on_path(
        a,
        next_on_path(s, key),
        k2,
        f1,
        l,
    ) by {
        lemma_range_child(s, k2, c, lo, hi);
        assert(apart(a, pid, k, k2, fuel));
        assert(next_on_path(s, k2) == next_on_path(s, key));
        assert(next_on_path(s, k) == l);
        if on_path(a, next_on_path(s, k2), k2, f1, l) {
            assert(!on_path(a, next_on_path(s, k), k, f1, l));
        }
    }
}

/// An internal node that lost the entry around a merged pair of children
/// is still an ordered node within its bounds, and sends `key`, which went
/// under one of the pair, to the merged child.
proof fn lemma_dropped(s: Seq<u8>, t: Seq<u8>, ls: int, l: u64, key: Seq<u8>, lo: Option<Seq<u8>>, hi: Option<Seq<u8>>)
    requires
        node_ok(s),
        is_internal_page(s),
        keys_sorted(node_keys(s)),
        keys_within(s, lo, hi),
        slot_count_of(s) > 0 ==> room_below(lo, node_key(s, 0)),
        child_bound(s, key, child_index(s, key)),
        (ls == child_index(s, key) && ls < slot_count_of(s)) || (ls == child_index(s, key) - 1 && ls >= 0),
        l != NO_PAGE,
        parent_dropped(s, ls, l, t),
    ensures
        node_ok(t),
        is_internal_page(t),
        keys_sorted(node_keys(t)),
        keys_within(t, lo, hi),
        slot_count_of(t) > 0 ==> room_below(lo, node_key(t, 0)),
        child_index(t, key) == ls,
        child_at_spec(t, ls) == l,
{
    let n = slot_count_of(s) as int;
    let c = child_index(s, key);
    assert(slot_count_of(t) == n - 1) by {
        assert(records_of(t).len() == n - 1);
    }
    if ls + 1 < n {
        lemma_internal_entry(l, node_key(s, ls + 1));
    }
    assert forall|i: int| 0 <= i < n - 1 implies #[trigger] node_key(t, i) == node_key(s, if i < ls {
        i
    } else {
        i + 1
    }) && records_of(t)[i] is Some && records_of(t)[i]->0.len() >= CHILD_SIZE by {
        if i < ls {
            assert(records_of(t)[i] == records_of(s)[i]);
        } else if i > ls {
            assert(records_of(t)[i] == records_of(s)[i + 1]);
        }
    }
    assert(node_ok(t));
    assert(keys_sorted(node_keys(t))) by {
        assert forall|i: int, j: int| 0 <= i < j < node_keys(t).len() implies key_lt(
            #[trigger] node_keys(t)[i],
            #[trigger] node_keys(t)[j],
        ) by {
            let si = if i < ls {
                i
            } else {
                i + 1
            };
            let sj = if j < ls {
                j
            } else {
                j + 1
            };
            assert(node_keys(t)[i] == node_key(t, i));
            assert(node_keys(t)[j] == node_key(t, j));
            assert(key_lt(node_keys(s)[si], node_keys(s)[sj]));
        }
    }
    assert forall|i: int| 0 <= i < n - 1 implies above(#[trigger] node_key(t, i), lo) && below(node_key(t, i), hi) by {
        let si = if i < ls {
            i
        } else {
            i + 1
        };
        assert(above(node_key(s, si), lo) && below(node_key(s, si), hi));
    }
    if n - 1 > 0 && ls == 0 {
        assert(key_lt(node_keys(s)[0], node_keys(s)[1]));
        if let Some(x) = lo {
            lemma_key_lt_transitive(x, node_key(s, 0), node_key(s, 1));
        } else {
            assert(node_key(s, 1).len() > 0);
        }
    }
    assert(child_bound(t, key, ls)) by {
        assert forall|i: int| 0 <= i < ls implies key_le(#[trigger] node_key(t, i), key) by {
            assert(node_key(t, i) == node_key(s, i));
        }
        assert forall|i: int| ls <= i < n - 1 implies key_lt(key, #[trigger] node_key(t, i)) by {
            assert(node_key(t, i) == node_key(s, i + 1));
        }
    }
    lemma_child_bound_unique(t, key, ls);
}

/// Two ordered leaves, the left one's keys below the separator and the right
/// one's at or above it, merge into an ordered leaf; a key that the side it
/// sorts into does not hold, the merge does not hold either.
proof fn lemma_merged_leaf(lp: Seq<u8>, rp: Seq<u8>, sep: Seq<u8>, m: Seq<u8>, key: Seq<u8>)
    requires
        merged_node(lp, rp, sep, m),
        node_ok(lp),
        is_leaf_page(lp),
        keys_sorted(node_keys(lp)),
        node_ok(rp),
        is_leaf_page(rp),
        keys_sorted(node_keys(rp)),
        forall|i: int| 0 <= i < slot_count_of(lp) ==> key_lt(#[trigger] node_key(lp, i), sep),
        forall|i: int| 0 <= i < slot_count_of(rp) ==> key_le(sep, #[trigger] node_key(rp, i)),
        key_lt(key, sep) ==> leaf_find(lp, key) is None,
        !key_lt(key, sep) ==> leaf_find(rp, key) is None,
    ensures
        node_ok(m),
        is_leaf_page(m),
        keys_sorted(node_keys(m)),
        leaf_find(m, key) is None,
{
    let nl = slot_count_of(lp) as int;
    let nr = slot_count_of(rp) as int;
    assert(slot_count_of(m) == nl + nr) by {
        assert(records_of(m).len() == nl + nr);
    }
    assert forall|i: int| 0 <= i < nl + nr implies #[trigger] node_key(m, i) == (if i < nl {
        node_key(lp, i)
    } else {
        node_key(rp, i - nl)
    }) && records_of(m)[i] is Some && records_of(m)[i]->0.len() >= RID_SIZE by {
        if i < nl {
            assert(records_of(m)[i] == records_of(lp)[i]);
        } else {
            assert(records_of(m)[i] == records_of(rp)[i - nl]);
        }
    }
    assert(node_ok(m));
    assert(keys_sorted(node_keys(m))) by {
        assert forall|i: int, j: int| 0 <= i < j < node_keys(m).len() implies key_lt(
            #[trigger] node_keys(m)[i],
            #[trigger] node_keys(m)[j],
        ) by {
            assert(node_keys(m)[i] == node_key(m, i));
            assert(node_keys(m)[j] == node_key(m, j));
            if j < nl {
                assert(key_lt(node_keys(lp)[i], node_keys(lp)[j]));
            } else if i >= nl {
                assert(key_lt(node_keys(rp)[i - nl], node_keys(rp)[j - nl]));
            } else {
                lemma_lt_le(node_key(lp, i), sep, node_key(rp, j - nl));
            }
        }
    }
    assert forall|i: int| 0 <= i < nl + nr implies #[trigger] node_key(m, i) != key by {
        if i < nl {
            if key_lt(key, sep) {
                assert(!(exists|j: int| 0 <= j < nl && #[trigger] node_key(lp, j) == key));
            } else if node_key(lp, i) == key {
                lemma_key_lt_total(key, sep);
            }
        } else {
            if !key_lt(key, sep) {
                assert(!(exists|j: int| 0 <= j < nr && #[trigger] node_key(rp, j) == key));
            } else if node_key(rp, i - nl) == key {
                lemma_lt_le(key, sep, node_key(rp, i - nl));
                lemma_key_lt_irreflexive(key);
            }
        }
    }
}

/// Two ordered internal nodes, the left one's keys below the separator and
/// the right one's above it, merge into an ordered internal node, which
/// sends a key where the side it sorts into sent it.
proof fn lemma_merged_internal(lp: Seq<u8>, rp: Seq<u8>, sep: Seq<u8>, m: Seq<u8>, key: Seq<u8>)
    requires
        merged_node(lp, rp, sep, m),
        node_ok(lp),
        is_internal_page(lp),
        keys_sorted(node_keys(lp)),
        node_ok(rp),
        is_internal_page(rp),
        keys_sorted(node_keys(rp)),
        forall|i: int| 0 <= i < slot_count_of(lp) ==> key_lt(#[trigger] node_key(lp, i), sep),
        forall|i: int| 0 <= i < slot_count_of(rp) ==> key_lt(sep, #[trigger] node_key(rp, i)),
    ensures
        node_ok(m),
        is_internal_page(m),
        keys_sorted(node_keys(m)),
        next_on_path(m, key) == next_on_path(
            if key_lt(key, sep) {
                lp
            } else {
                rp
            },
            key,
        ),
{
    let nl = slot_count_of(lp) as int;
    let nr = slot_count_of(rp) as int;
    lemma_internal_entry(link_of(lp), sep);
    assert(slot_count_of(m) == nl + 1 + nr) by {
        assert(records_of(m).len() == nl + 1 + nr);
    }
    assert forall|i: int| 0 <= i < nl + 1 + nr implies #[trigger] node_key(m, i) == (if i < nl {
        node_key(lp, i)
    } else if i == nl {
        sep
    } else {
        node_key(rp, i - nl - 1)
    }) && crate::btree::node::entry_child(m, i) == (if i < nl {
        crate::btree::node::entry_child(lp, i)
    } else if i == nl {
        link_of(lp)
    } else {
        crate::btree::node::entry_child(rp, i - nl - 1)
    }) && records_of(m)[i] is Some && records_of(m)[i]->0.len() >= CHILD_SIZE by {
        if i < nl {
            assert(records_of(m)[i] == records_of(lp)[i]);
        } else if i == nl {
            assert(records_of(m)[i] == Some(internal_entry(link_of(lp), sep)));
        } else {
            assert(records_of(m)[i] == records_of(rp)[i - nl - 1]);
        }
    }
    assert(node_ok(m));
    assert(keys_sorted(node_keys(m))) by {
        assert forall|i: int, j: int| 0 <= i < j < node_keys(m).len() implies key_lt(
            #[trigger] node_keys(m)[i],
            #[trigger] node_keys(m)[j],
        ) by {
            assert(node_keys(m)[i] == node_key(m, i));
            assert(node_keys(m)[j] == node_key(m, j));
            if j < nl {
                assert(key_lt(node_keys(lp)[i], node_keys(lp)[j]));
            } else if i > nl {
                assert(key_lt(node_keys(rp)[i - nl - 1], node_keys(rp)[j - nl - 1]));
            } else if i < nl && j == nl {
            } else if i == nl {
            } else {
                lemma_key_lt_transitive(node_key(lp, i), sep, node_key(rp, j - nl - 1));
            }
        }
    }
    if key_lt(key, sep) {
        lemma_child_bound_exists(lp, key);
        let d = child_index(lp, key);
        assert(child_bound(m, key, d)) by {
            assert forall|i: int| 0 <= i < d implies key_le(#[trigger] node_key(m, i), key) by {
                assert(node_key(m, i) == node_key(lp, i));
            }
            assert forall|i: int| d <= i < nl + 1 + nr implies key_lt(key, #[trigger] node_key(m, i)) by {
                if i < nl {
                    assert(node_key(m, i) == node_key(lp, i));
                } else if i > nl {
                    assert(node_key(m, i) == node_key(rp, i - nl - 1));
                    lemma_key_lt_transitive(key, sep, node_key(rp, i - nl - 1));
                }
            }
        }
        lemma_child_bound_unique(m, key, d);
    } else {
        lemma_key_lt_total(key, sep);
        lemma_child_bound_exists(rp, key);
        let d = child_index(rp, key);
        assert(child_bound(m, key, nl + 1 + d)) by {
            assert forall|i: int| 0 <= i < nl + 1 + d implies key_le(#[trigger] node_key(m, i), key) by {
                if i < nl {
                    assert(node_key(m, i) == node_key(lp, i));
                    lemma_lt_le(node_key(lp, i), sep, key);
                } else if i > nl {
                    assert(node_key(m, i) == node_key(rp, i - nl - 1));
                }
            }
            assert forall|i: int| nl + 1 + d <= i < nl + 1 + nr implies key_lt(key, #[trigger] node_key(m, i)) by {
                assert(node_key(m, i) == node_key(rp, i - nl - 1));
            }
        }
        lemma_child_bound_unique(m, key, nl + 1 + d);
    }
}

/// In two ordered leaves merged around a separator, every key finds what it
/// found in the side it sorts into.
proof fn lemma_merged_leaf_finds(lp: Seq<u8>, rp: Seq<u8>, sep: Seq<u8>, m: Seq<u8>, k: Seq<u8>)
    requires
        merged_node(lp, rp, sep, m),
        node_ok(lp),
        is_leaf_page(lp),
        keys_sorted(node_keys(lp)),
        node_ok(rp),
        is_leaf_page(rp),
        keys_sorted(node_keys(rp)),
        forall|i: int| 0 <= i < slot_count_of(lp) ==> key_lt(#[trigger] node_key(lp, i), sep),
        forall|i: int| 0 <= i < slot_count_of(rp) ==> key_le(sep, #[trigger] node_key(rp, i)),
    ensures
        leaf_find(m, k) == leaf_find(
            if key_lt(k, sep) {
                lp
            } else {
                rp
            },
            k,
        ),
{
    let nl = slot_count_of(lp) as int;
    let nr = slot_count_of(rp) as int;
    assert(slot_count_of(m) == nl + nr) by {
        assert(records_of(m).len() == nl + nr);
    }
    assert forall|i: int| 0 <= i < nl + nr implies #[trigger] node_key(m, i) == (if i < nl {
        node_key(lp, i)
    } else {
        node_key(rp, i - nl)
    }) && leaf_rid(m, i) == (if i < nl {
        leaf_rid(lp, i)
    } else {
        leaf_rid(rp, i - nl)
    }) by {
        if i < nl {
            assert(records_of(m)[i] == records_of(lp)[i]);
        } else {
            assert(records_of(m)[i] == records_of(rp)[i - nl]);
        }
    }
    assert(keys_sorted(node_keys(m))) by {
        assert forall|i: int, j: int| 0 <= i < j < node_keys(m).len() implies key_lt(
            #[trigger] node_keys(m)[i],
            #[trigger] node_keys(m)[j],
        ) by {
            assert(node_keys(m)[i] == node_key(m, i));
            assert(node_keys(m)[j] == node_key(m, j));
            if j < nl {
                assert(key_lt(node_keys(lp)[i], node_keys(lp)[j]));
            } else if i >= nl {
                assert(key_lt(node_keys(rp)[i - nl], node_keys(rp)[j - nl]));
            } else {
                lemma_lt_le(node_key(lp, i), sep, node_key(rp, j - nl));
            }
        }
    }
    if key_lt(k, sep) {
        if exists|i: int| 0 <= i < nl && #[trigger] node_key(lp, i) == k {
            let i = choose|i: int| 0 <= i < nl && #[trigger] node_key(lp, i) == k;
            lemma_leaf_find_at(lp, k, i);
            lemma_leaf_find_at(m, k, i);
        } else {
            assert forall|i: int| 0 <= i < nl + nr implies #[trigger] node_key(m, i) != k by {
                if i >= nl && node_key(rp, i - nl) == k {
                    lemma_lt_le(k, sep, node_key(rp, i - nl));
                    lemma_key_lt_irreflexive(k);
                }
            }
        }
    } else {
        lemma_key_lt_total(k, sep);
        if exists|i: int| 0 <= i < nr && #[trigger] node_key(rp, i) == k {
            let i = choose|i: int| 0 <= i < nr && #[trigger] node_key(rp, i) == k;
            lemma_leaf_find_at(rp, k, i);
            lemma_leaf_find_at(m, k, nl + i);
        } else {
            assert forall|i: int| 0 <= i < nl + nr implies #[trigger] node_key(m, i) != k by {
                if i < nl && node_key(lp, i) == k {
                    lemma_lt_le(k, sep, k);
                    lemma_key_lt_irreflexive(k);
                }
            }
        }
    }
}

/// An internal node that lost the entry around a merged pair of children
/// sends every key within its bounds to the child it went to before, or to
/// the merge when it went to one of the pair.
proof fn lemma_dropped_routes(s: Seq<u8>, t: Seq<u8>, ls: int, l: u64, k: Seq<u8>, lo: Option<Seq<u8>>, hi: Option<Seq<u8>>)
    requires
        node_ok(s),
        is_internal_page(s),
        keys_sorted(node_keys(s)),
        keys_within(s, lo, hi),
        0 <= ls < slot_count_of(s),
        l != NO_PAGE,
        parent_dropped(s, ls, l, t),
        in_range(k, lo, hi),
    ensures
        next_on_path(t, k) == (if child_index(s, k) == ls || child_index(s, k) == ls + 1 {
            l as int
        } else {
            child_at_spec(s, child_index(s, k)) as int
        }),
{
    let n = slot_count_of(s) as int;
    lemma_child_bound_exists(s, k);
    let j = child_index(s, k);
    let jt = if j <= ls {
        j
    } else {
        j - 1
    };
    assert(slot_count_of(t) == n - 1) by {
        assert(records_of(t).len() == n - 1);
    }
    if ls + 1 < n {
        lemma_internal_entry(l, node_key(s, ls + 1));
    }
    assert forall|i: int| 0 <= i < n - 1 implies #[trigger] node_key(t, i) == node_key(s, if i < ls {
        i
    } else {
        i + 1
    }) && (i != ls ==> crate::btree::node::entry_child(t, i) == crate::btree::node::entry_child(s, if i < ls {
        i
    } else {
        i + 1
    })) && (i == ls ==> crate::btree::node::entry_child(t, i) == l) by {
        if i < ls {
            assert(records_of(t)[i] == records_of(s)[i]);
        } else if i > ls {
            assert(records_of(t)[i] == records_of(s)[i + 1]);
        }
    }
    assert(child_bound(t, k, jt)) by {
        assert forall|i: int| 0 <= i < jt implies key_le(#[trigger] node_key(t, i), k) by {
            if i < ls {
                assert(node_key(t, i) == node_key(s, i));
            } else {
                assert(node_key(t, i) == node_key(s, i + 1));
            }
        }
        assert forall|i: int| jt <= i < n - 1 implies key_lt(k, #[trigger] node_key(t, i)) by {
            if i < ls {
                assert(node_key(t, i) == node_key(s, i));
            } else {
                assert(node_key(t, i) == node_key(s, i + 1));
            }
        }
    }
    lemma_child_bound_unique(t, k, jt);
}

/// What deleting `key` under page `pid`, through at most `fuel` internal
/// nodes of a subtree for the keys in `[lo, hi)`, made of pages `a`, now
/// `b`: looking `key` up from the node finds nothing; the node is still an
/// ordered node of its kind within its bounds, leaving room below its first
/// key if internal; only pages of the subtree changed; and the search for
/// `key` from the node visits pages of the subtree only, and the node once.
pub open spec fn deleted(a: Seq<Seq<u8>>, b: Seq<Seq<u8>>, pid: int, key: Seq<u8>, lo: Option<Seq<u8>>, hi: Option<Seq<u8>>, fuel: nat) -> bool {
    &&& lookup_from(b, pid, key, fuel) == Some(None::<RecordId>)
    &&& ordered_node(b, pid)
    &&& is_leaf_page(b[pid]) == is_leaf_page(a[pid])
    &&& keys_within(b[pid], lo, hi)
    &&& !is_leaf_page(b[pid]) && slot_count_of(b[pid]) > 0 ==> room_below(lo, node_key(b[pid], 0))
    &&& b.len() == a.len()
    &&& forall|q: int| 0 <= q < a.len() && !in_subtree(a, pid, lo, hi, fuel, q) ==> #[trigger] b[q] == a[q]
    &&& forall|q: int| #[trigger] on_path(b, pid, key, fuel, q) ==> in_subtree(a, pid, lo, hi, fuel, q)
    &&& !is_leaf_page(b[pid]) ==> fuel > 0 && !on_path(b, next_on_path(b[pid], key), key, (fuel - 1) as nat, pid)
}

/// Every key of an ordered node whose first key lies above `x` lies above
/// `x`.
proof fn lemma_room_all(s: Seq<u8>, x: Seq<u8>)
    requires
        keys_sorted(node_keys(s)),
        slot_count_of(s) > 0 ==> room_below(Some(x), node_key(s, 0)),
    ensures
        forall|i: int| 0 <= i < slot_count_of(s) ==> key_lt(x, #[trigger] node_key(s, i)),
{
    assert forall|i: int| 0 <= i < slot_count_of(s) implies key_lt(x, #[trigger] node_key(s, i)) by {
        if i > 0 {
            assert(key_lt(node_keys(s)[0], node_keys(s)[i]));
            lemma_key_lt_transitive(x, node_key(s, 0), node_key(s, i));
        }
    }
}

/// Deleting `key` from the child it goes under, with no merge after it,
/// leaves the node as it was, still sending `key` to that child.
proof fn lemma_step_kept(a: Seq<Seq<u8>>, b: Seq<Seq<u8>>, pid: int, key: Seq<u8>, lo: Option<Seq<u8>>, hi: Option<Seq<u8>>, fuel: nat)
    requires
        subtree_valid(a, pid, lo, hi, fuel),
        in_range(key, lo, hi),
        !is_leaf_page(a[pid]),
        fuel > 0,
        deleted(
            a,
            b,
            next_on_path(a[pid], key),
            key,
            child_lo(a[pid], child_index(a[pid], key), lo),
            child_hi(a[pid], child_index(a[pid], key), hi),
            (fuel - 1) as nat,
        ),
    ensures
        deleted(a, b, pid, key, lo, hi, fuel),
{
    let s = a[pid];
    let c = child_index(s, key);
    let ch = next_on_path(s, key);
    let clo = child_lo(s, c, lo);
    let chi = child_hi(s, c, hi);
    let f1 = (fuel - 1) as nat;
    lemma_child_valid(a, pid, key, lo, hi, fuel);
    assert(path_ranged(a, pid, key, lo, hi, fuel));
    assert(path_roomy(a, pid, key, lo, hi, fuel));
    assert(b[pid] == s);
    assert(on_path(a, pid, key, fuel, pid));
    assert(in_subtree(a, pid, lo, hi, fuel, pid));
    assert forall|q: int| #[trigger] on_path(b, pid, key, fuel, q) implies in_subtree(a, pid, lo, hi, fuel, q) by {
        if q != pid {
            assert(on_path(b, ch, key, f1, q));
            assert(in_subtree(a, ch, clo, chi, f1, q));
        }
    }
    assert forall|q: int| 0 <= q < a.len() && !in_subtree(a, pid, lo, hi, fuel, q) implies #[trigger] b[q] == a[q] by {
        if in_subtree(a, ch, clo, chi, f1, q) {
            assert(in_subtree(a, pid, lo, hi, fuel, q));
        }
    }
    if on_path(b, ch, key, f1, pid) {
        assert(in_subtree(a, ch, clo, chi, f1, pid));
    }
}

/// Deleting `key` from the child it goes under, then merging that child
/// with the sibling after it, leaves the node sending `key` to the merge,
/// where looking it up still finds nothing.
proof fn lemma_step_right(a: Seq<Seq<u8>>, b: Seq<Seq<u8>>, c: Seq<Seq<u8>>, pid: int, key: Seq<u8>, lo: Option<Seq<u8>>, hi: Option<Seq<u8>>, fuel: nat)
    requires
        subtree_valid(a, pid, lo, hi, fuel),
        in_range(key, lo, hi),
        !is_leaf_page(a[pid]),
        fuel > 0,
        deleted(
            a,
            b,
            next_on_path(a[pid], key),
            key,
            child_lo(a[pid], child_index(a[pid], key), lo),
            child_hi(a[pid], child_index(a[pid], key), hi),
            (fuel - 1) as nat,
        ),
        b[pid] == a[pid],
        merged_at(b, c, pid, child_index(a[pid], key)),
    ensures
        deleted(a, c, pid, key, lo, hi, fuel),
{
    let s = a[pid];
    let ci = child_index(s, key);
    let ch = next_on_path(s, key);
    let clo = child_lo(s, ci, lo);
    let chi = child_hi(s, ci, hi);
    let f1 = (fuel - 1) as nat;
    let sib = child_at_spec(s, ci + 1) as int;
    let sep = node_key(s, ci);
    lemma_child_valid(a, pid, key, lo, hi, fuel);
    lemma_right_sibling(a, pid, key, lo, hi, fuel);
    assert(path_ranged(a, pid, key, lo, hi, fuel));
    assert(path_roomy(a, pid, key, lo, hi, fuel));
    lemma_child_bound_exists(s, key);
    let cp = b[ch];
    let m = c[ch];
    let pp = c[pid];
    assert(b[sib] == a[sib]);
    assert(chi == Some(sep));
    assert(ch != pid);
    assert(on_path(a, ch, key, f1, ch));
    assert(on_path(a, pid, key, fuel, ch));
    assert(in_subtree(a, pid, lo, hi, fuel, ch));
    assert(on_path(a, pid, key, fuel, pid));
    assert(in_subtree(a, pid, lo, hi, fuel, pid));
    lemma_dropped(s, pp, ci, ch as u64, key, lo, hi);
    assert(c[pid] == pp);
    assert(c[ch] == m);
    if is_leaf_page(cp) {
        assert(leaf_find(cp, key) is None);
        lemma_merged_leaf(cp, a[sib], sep, m, key);
        assert(lookup_from(c, ch, key, f1) == Some(None::<RecordId>));
        assert(forall|q: int| #[trigger] on_path(c, ch, key, f1, q) ==> q == ch);
    } else {
        lemma_room_all(a[sib], sep);
        lemma_merged_internal(cp, a[sib], sep, m, key);
        let nx = next_on_path(cp, key);
        let f2 = (f1 - 1) as nat;
        assert(forall|q: int| #[trigger] on_path(b, nx, key, f2, q) ==> on_path(b, ch, key, f1, q));
        assert(descend(b, nx, key, f2) is Some);
        assert forall|q: int| #[trigger] on_path(b, nx, key, f2, q) implies c[q] == b[q] by {
            assert(on_path(b, ch, key, f1, q));
            assert(in_subtree(a, ch, clo, chi, f1, q));
            lemma_on_path_ordered(b, nx, key, f2, q);
            assert(q != pid);
            assert(q != ch);
        }
        lemma_descend_agree(b, c, nx, key, f2);
        assert forall|q: int| #[trigger] on_path(c, ch, key, f1, q) implies in_subtree(a, pid, lo, hi, fuel, q) && q != pid by {
            if q != ch {
                assert(on_path(c, nx, key, f2, q));
                assert(on_path(b, nx, key, f2, q));
                assert(on_path(b, ch, key, f1, q));
                assert(in_subtree(a, ch, clo, chi, f1, q));
            }
        }
    }
    assert forall|q: int| #[trigger] on_path(c, pid, key, fuel, q) implies in_subtree(a, pid, lo, hi, fuel, q) by {
        if q != pid {
            assert(on_path(c, ch, key, f1, q));
        }
    }
    assert forall|q: int| 0 <= q < a.len() && !in_subtree(a, pid, lo, hi, fuel, q) implies #[trigger] c[q] == a[q] by {
        if in_subtree(a, ch, clo, chi, f1, q) {
            assert(in_subtree(a, pid, lo, hi, fuel, q));
        }
        assert(b[q] == a[q]);
    }
}

/// Deleting `key` from the child it goes under, then merging the sibling
/// before that child with it, leaves the node sending `key` to the merge,
/// where looking it up still finds nothing.
proof fn lemma_step_left(a: Seq<Seq<u8>>, b: Seq<Seq<u8>>, c: Seq<Seq<u8>>, pid: int, key: Seq<u8>, lo: Option<Seq<u8>>, hi: Option<Seq<u8>>, fuel: nat)
    requires
        subtree_valid(a, pid, lo, hi, fuel),
        in_range(key, lo, hi),
        !is_leaf_page(a[pid]),
        fuel > 0,
        deleted(
            a,
            b,
            next_on_path(a[pid], key),
            key,
            child_lo(a[pid], child_index(a[pid], key), lo),
            child_hi(a[pid], child_index(a[pid], key), hi),
            (fuel - 1) as nat,
        ),
        b[pid] == a[pid],
        child_index(a[pid], key) >= 1,
        merged_at(b, c, pid, child_index(a[pid], key) - 1),
    ensures
        deleted(a, c, pid, key, lo, hi, fuel),
{
    let s = a[pid];
    let ci = child_index(s, key);
    let ch = next_on_path(s, key);
    let clo = child_lo(s, ci, lo);
    let chi = child_hi(s, ci, hi);
    let f1 = (fuel - 1) as nat;
    let sib = child_at_spec(s, ci - 1) as int;
    let sep = node_key(s, ci - 1);
    lemma_child_valid(a, pid, key, lo, hi, fuel);
    lemma_left_sibling(a, pid, key, lo, hi, fuel);
    assert(path_ranged(a, pid, key, lo, hi, fuel));
    assert(path_roomy(a, pid, key, lo, hi, fuel));
    lemma_child_bound_exists(s, key);
    let cp = b[ch];
    let m = c[sib];
    let pp = c[pid];
    assert(b[sib] == a[sib]);
    assert(clo == Some(sep));
    assert(ch != pid);
    assert(on_path(a, pid, key, fuel, pid));
    assert(in_subtree(a, pid, lo, hi, fuel, pid));
    assert(key_le(sep, key));
    if key_lt(key, sep) {
        lemma_key_lt_asymmetric(key, sep);
        lemma_key_lt_irreflexive(key);
    }
    lemma_dropped(s, pp, ci - 1, sib as u64, key, lo, hi);
    assert(c[pid] == pp);
    assert(c[sib] == m);
    if is_leaf_page(cp) {
        assert(leaf_find(cp, key) is None);
        lemma_merged_leaf(a[sib], cp, sep, m, key);
        assert(lookup_from(c, sib, key, f1) == Some(None::<RecordId>));
        assert(forall|q: int| #[trigger] on_path(c, sib, key, f1, q) ==> q == sib);
    } else {
        lemma_room_all(cp, sep);
        lemma_merged_internal(a[sib], cp, sep, m, key);
        let nx = next_on_path(cp, key);
        let f2 = (f1 - 1) as nat;
        assert(forall|q: int| #[trigger] on_path(b, nx, key, f2, q) ==> on_path(b, ch, key, f1, q));
        assert(descend(b, nx, key, f2) is Some);
        assert forall|q: int| #[trigger] on_path(b, nx, key, f2, q) implies c[q] == b[q] by {
            assert(on_path(b, ch, key, f1, q));
            assert(in_subtree(a, ch, clo, chi, f1, q));
            lemma_on_path_ordered(b, nx, key, f2, q);
            assert(q != pid);
            assert(q != ch);
        }
        lemma_descend_agree(b, c, nx, key, f2);
        assert forall|q: int| #[trigger] on_path(c, sib, key, f1, q) implies in_subtree(a, pid, lo, hi, fuel, q) && q != pid by {
            if q != sib {
                assert(on_path(c, nx, key, f2, q));
                assert(on_path(b, nx, key, f2, q));
                assert(on_path(b, ch, key, f1, q));
                assert(in_subtree(a, ch, clo, chi, f1, q));
            }
        }
    }
    assert forall|q: int| #[trigger] on_path(c, pid, key, fuel, q) implies in_subtree(a, pid, lo, hi, fuel, q) by {
        if q != pid {
            assert(on_path(c, sib, key, f1, q));
        }
    }
    assert forall|q: int| 0 <= q < a.len() && !in_subtree(a, pid, lo, hi, fuel, q) implies #[trigger] c[q] == a[q] by {
        if in_subtree(a, ch, clo, chi, f1, q) {
            assert(in_subtree(a, pid, lo, hi, fuel, q));
        }
        assert(b[q] == a[q]);
    }
}

/// Deleting `key` from a leaf on an ordered search path, leaving an ordered
/// leaf within the same bounds without it, is a delete.
proof fn lemma_leaf_deleted(a: Seq<Seq<u8>>, b: Seq<Seq<u8>>, pid: int, key: Seq<u8>, lo: Option<Seq<u8>>, hi: Option<Seq<u8>>, fuel: nat)
    requires
        path_ranged(a, pid, key, lo, hi, fuel),
        is_leaf_page(a[pid]),
        b == a.update(pid, b[pid]),
        node_ok(b[pid]),
        is_leaf_page(b[pid]),
        keys_sorted(node_keys(b[pid])),
        keys_within(b[pid], lo, hi),
        leaf_find(b[pid], key) is None,
    ensures
        deleted(a, b, pid, key, lo, hi, fuel),
{
    assert(on_path(a, pid, key, fuel, pid));
    assert(in_subtree(a, pid, lo, hi, fuel, pid));
    assert forall|q: int| #[trigger] on_path(b, pid, key, fuel, q) implies in_subtree(a, pid, lo, hi, fuel, q) by {
        assert(q == pid);
    }
}

/// What deleting `key` under page `pid` did for a key `k` in `[lo, hi)`:
/// a key other than `key` finds what it found before, and the search for
/// `k` from the node visits pages of the subtree only, and the node once.
pub open spec fn kept_one(a: Seq<Seq<u8>>, b: Seq<Seq<u8>>, pid: int, key: Seq<u8>, k: Seq<u8>, lo: Option<Seq<u8>>, hi: Option<Seq<u8>>, fuel: nat) -> bool {
    &&& k != key ==> lookup_from(b, pid, k, fuel) == lookup_from(a, pid, k, fuel)
    &&& forall|q: int| #[trigger] on_path(b, pid, k, fuel, q) ==> in_subtree(a, pid, lo, hi, fuel, q)
    &&& !is_leaf_page(b[pid]) ==> !on_path(b, next_on_path(b[pid], k), k, (fuel - 1) as nat, pid)
}

/// What deleting `key` under page `pid` did for every key in `[lo, hi)`,
/// as [`kept_one`] says.
pub open spec fn kept_after_delete(a: Seq<Seq<u8>>, b: Seq<Seq<u8>>, pid: int, key: Seq<u8>, lo: Option<Seq<u8>>, hi: Option<Seq<u8>>, fuel: nat) -> bool {
    forall|k: Seq<u8>| in_range(k, lo, hi) ==> #[trigger] kept_one(a, b, pid, key, k, lo, hi, fuel)
}

/// A key that goes under another child than `key` searches pages outside
/// the subtree of the child of `key`, and not the node.
proof fn lemma_other_child(a: Seq<Seq<u8>>, pid: int, key: Seq<u8>, k: Seq<u8>, lo: Option<Seq<u8>>, hi: Option<Seq<u8>>, fuel: nat)
    requires
        subtree_valid(a, pid, lo, hi, fuel),
        in_range(key, lo, hi),
        in_range(k, lo, hi),
        !is_leaf_page(a[pid]),
        fuel > 0,
        child_index(a[pid], k) != child_index(a[pid], key),
    ensures
        descend(a, next_on_path(a[pid], k), k, (fuel - 1) as nat) is Some,
        forall|q: int|
            #[trigger] on_path(a, next_on_path(a[pid], k), k, (fuel - 1) as nat, q) ==> q != pid && !in_subtree(
                a,
                next_on_path(a[pid], key),
                child_lo(a[pid], child_index(a[pid], key), lo),
                child_hi(a[pid], child_index(a[pid], key), hi),
                (fuel - 1) as nat,
                q,
            ),
{
    let s = a[pid];
    let ci = child_index(s, key);
    let f1 = (fuel - 1) as nat;
    let nk = next_on_path(s, k);
    assert(path_ranged(a, pid, k, lo, hi, fuel));
    assert(path_ranged(a, pid, key, lo, hi, fuel));
    lemma_child_bound_exists(s, key);
    lemma_child_bound_exists(s, k);
    let j = child_index(s, k);
    lemma_path_ranged_descends(a, nk, k, child_lo(s, j, lo), child_hi(s, j, hi), f1);
    assert forall|q: int| #[trigger] on_path(a, nk, k, f1, q) implies q != pid && !in_subtree(
        a,
        next_on_path(s, key),
        child_lo(s, ci, lo),
        child_hi(s, ci, hi),
        f1,
        q,
    ) by {
        if in_subtree(a, next_on_path(s, key), child_lo(s, ci, lo), child_hi(s, ci, hi), f1, q) {
            let k2 = choose|k2: Seq<u8>|
                in_range(k2, child_lo(s, ci, lo), child_hi(s, ci, hi)) && #[trigger] on_path(
                    a,
                    next_on_path(s, key),
                    k2,
                    f1,
                    q,
                );
            lemma_range_child(s, k2, ci, lo, hi);
            assert(apart(a, pid, k2, k, fuel));
            assert(next_on_path(s, k2) == next_on_path(s, key));
        }
    }
}

/// Deleting from a leaf keeps every other key of it.
proof fn lemma_leaf_kept(a: Seq<Seq<u8>>, b: Seq<Seq<u8>>, pid: int, key: Seq<u8>, lo: Option<Seq<u8>>, hi: Option<Seq<u8>>, fuel: nat)
    requires
        ordered_node(a, pid),
        is_leaf_page(a[pid]),
        in_range(key, lo, hi),
        b == a.update(pid, b[pid]),
        node_ok(b[pid]),
        is_leaf_page(b[pid]),
        keys_sorted(node_keys(b[pid])),
        forall|k: Seq<u8>| k != key ==> #[trigger] leaf_find(b[pid], k) == leaf_find(a[pid], k),
    ensures
        kept_after_delete(a, b, pid, key, lo, hi, fuel),
{
    assert forall|k: Seq<u8>| in_range(k, lo, hi) implies #[trigger] kept_one(a, b, pid, key, k, lo, hi, fuel) by {
        assert(on_path(a, pid, k, fuel, pid));
        assert(in_subtree(a, pid, lo, hi, fuel, pid));
        assert forall|q: int| #[trigger] on_path(b, pid, k, fuel, q) implies in_subtree(a, pid, lo, hi, fuel, q) by {
            assert(q == pid);
        }
        if k != key {
            assert(leaf_find(b[pid], k) == leaf_find(a[pid], k));
        }
    }
}

/// Deleting `key` from the child it goes under, with no merge after it,
/// keeps every other key of the node.
proof fn lemma_kept_step_none(a: Seq<Seq<u8>>, b: Seq<Seq<u8>>, pid: int, key: Seq<u8>, lo: Option<Seq<u8>>, hi: Option<Seq<u8>>, fuel: nat)
    requires
        subtree_valid(a, pid, lo, hi, fuel),
        in_range(key, lo, hi),
        !is_leaf_page(a[pid]),
        fuel > 0,
        deleted(
            a,
            b,
            next_on_path(a[pid], key),
            key,
            child_lo(a[pid], child_index(a[pid], key), lo),
            child_hi(a[pid], child_index(a[pid], key), hi),
            (fuel - 1) as nat,
        ),
        kept_after_delete(
            a,
            b,
            next_on_path(a[pid], key),
            key,
            child_lo(a[pid], child_index(a[pid], key), lo),
            child_hi(a[pid], child_index(a[pid], key), hi),
            (fuel - 1) as nat,
        ),
    ensures
        kept_after_delete(a, b, pid, key, lo, hi, fuel),
{
    let s = a[pid];
    let ci = child_index(s, key);
    let ch = next_on_path(s, key);
    let clo = child_lo(s, ci, lo);
    let chi = child_hi(s, ci, hi);
    let f1 = (fuel - 1) as nat;
    lemma_child_valid(a, pid, key, lo, hi, fuel);
    assert(path_ranged(a, pid, key, lo, hi, fuel));
    assert(b[pid] == s);
    assert(on_path(a, pid, key, fuel, pid));
    assert forall|k: Seq<u8>| in_range(k, lo, hi) implies #[trigger] kept_one(a, b, pid, key, k, lo, hi, fuel) by {
        lemma_child_bound_exists(s, k);
        assert(path_ranged(a, pid, k, lo, hi, fuel));
        assert(on_path(a, pid, k, fuel, pid));
        assert(in_subtree(a, pid, lo, hi, fuel, pid));
        if child_index(s, k) == ci {
            lemma_range_child_back(s, k, ci, lo, hi);
            assert(kept_one(a, b, ch, key, k, clo, chi, f1));
            assert forall|q: int| #[trigger] on_path(b, pid, k, fuel, q) implies in_subtree(a, pid, lo, hi, fuel, q) by {
                if q != pid {
                    assert(on_path(b, ch, k, f1, q));
                }
            }
            if on_path(b, ch, k, f1, pid) {
                assert(in_subtree(a, ch, clo, chi, f1, pid));
            }
        } else {
            let nk = next_on_path(s, k);
            lemma_other_child(a, pid, key, k, lo, hi, fuel);
            assert forall|q: int| #[trigger] on_path(a, nk, k, f1, q) implies b[q] == a[q] by {
                lemma_on_path_ordered(a, nk, k, f1, q);
            }
            lemma_descend_agree(a, b, nk, k, f1);
            assert forall|q: int| #[trigger] on_path(b, pid, k, fuel, q) implies in_subtree(a, pid, lo, hi, fuel, q) by {
                if q != pid {
                    assert(on_path(b, nk, k, f1, q));
                    assert(on_path(a, nk, k, f1, q));
                    assert(on_path(a, pid, k, fuel, q));
                }
            }
        }
    }
}

/// A key that goes under child `c` lies within that child's bounds.
proof fn lemma_range_child_back(s: Seq<u8>, k: Seq<u8>, c: int, lo: Option<Seq<u8>>, hi: Option<Seq<u8>>)
    requires
        child_bound(s, k, c),
        in_range(k, lo, hi),
    ensures
        in_range(k, child_lo(s, c, lo), child_hi(s, c, hi)),
{
}

/// The delete of `key` below node `pid`, in a well-formed subtree for the
/// keys in `[lo, hi)`, was done in the child that `key` goes under, from
/// pages `a` to pages `b`, leaving the node as it was.
pub open spec fn child_done(a: Seq<Seq<u8>>, b: Seq<Seq<u8>>, pid: int, key: Seq<u8>, lo: Option<Seq<u8>>, hi: Option<Seq<u8>>, fuel: nat) -> bool {
    let s = a[pid];
    let ci = child_index(s, key);
    &&& subtree_valid(a, pid, lo, hi, fuel)
    &&& in_range(key, lo, hi)
    &&& !is_leaf_page(s)
    &&& fuel > 0
    &&& deleted(a, b, next_on_path(s, key), key, child_lo(s, ci, lo), child_hi(s, ci, hi), (fuel - 1) as nat)
    &&& kept_after_delete(a, b, next_on_path(s, key), key, child_lo(s, ci, lo), child_hi(s, ci, hi), (fuel - 1) as nat)
    &&& b[pid] == s
}

/// After the delete in the child, a write of the node and of page `mp` that
/// sends a key of that child through `mp` the way the child now does keeps
/// what the key finds.
proof fn lemma_kept_via_child(a: Seq<Seq<u8>>, b: Seq<Seq<u8>>, c: Seq<Seq<u8>>, pid: int, key: Seq<u8>, k: Seq<u8>, lo: Option<Seq<u8>>, hi: Option<Seq<u8>>, fuel: nat, mp: int)
    requires
        child_done(a, b, pid, key, lo, hi, fuel),
        in_range(k, lo, hi),
        child_index(a[pid], k) == child_index(a[pid], key),
        c == b.update(mp, c[mp]).update(pid, c[pid]),
        1 <= mp < b.len(),
        mp != pid,
        in_subtree(a, pid, lo, hi, fuel, mp),
        ordered_node(c, pid),
        !is_leaf_page(c[pid]),
        next_on_path(c[pid], k) == mp,
        ordered_node(c, mp),
        is_leaf_page(c[mp]) == is_leaf_page(b[next_on_path(a[pid], key)]),
        is_leaf_page(c[mp]) ==> leaf_find(c[mp], k) == leaf_find(b[next_on_path(a[pid], key)], k),
        !is_leaf_page(c[mp]) ==> next_on_path(c[mp], k) == next_on_path(b[next_on_path(a[pid], key)], k),
        mp == next_on_path(a[pid], key) || !in_subtree(
            a,
            next_on_path(a[pid], key),
            child_lo(a[pid], child_index(a[pid], key), lo),
            child_hi(a[pid], child_index(a[pid], key), hi),
            (fuel - 1) as nat,
            mp,
        ),
    ensures
        kept_one(a, c, pid, key, k, lo, hi, fuel),
{
    let s = a[pid];
    let ci = child_index(s, key);
    let ch = next_on_path(s, key);
    let clo = child_lo(s, ci, lo);
    let chi = child_hi(s, ci, hi);
    let f1 = (fuel - 1) as nat;
    let f2 = (f1 - 1) as nat;
    let cp = b[ch];
    lemma_child_valid(a, pid, key, lo, hi, fuel);
    lemma_child_bound_exists(s, k);
    assert(path_ranged(a, pid, k, lo, hi, fuel));
    assert(on_path(a, pid, k, fuel, pid));
    assert(in_subtree(a, pid, lo, hi, fuel, pid));
    lemma_range_child_back(s, k, ci, lo, hi);
    assert(c.len() == a.len());
    assert(kept_one(a, b, ch, key, k, clo, chi, f1));
    assert(path_ranged(a, ch, k, clo, chi, f1));
    lemma_path_ranged_descends(a, ch, k, clo, chi, f1);
    assert(lookup_from(a, pid, k, fuel) == lookup_from(a, ch, k, f1));
    if !is_leaf_page(cp) {
        let nx = next_on_path(cp, k);
        assert(descend(b, ch, k, f1) is Some);
        assert forall|q: int| #[trigger] on_path(b, nx, k, f2, q) implies c[q] == b[q] by {
            assert(on_path(b, ch, k, f1, q));
            assert(in_subtree(a, ch, clo, chi, f1, q));
            lemma_on_path_ordered(b, nx, k, f2, q);
        }
        lemma_descend_agree(b, c, nx, k, f2);
        assert(f1 > 0);
        assert(lookup_from(c, pid, k, fuel) == lookup_from(c, mp, k, f1));
        assert(lookup_from(c, mp, k, f1) == lookup_from(c, nx, k, f2));
        assert(lookup_from(b, ch, k, f1) == lookup_from(b, nx, k, f2));
        assert forall|q: int| #[trigger] on_path(c, pid, k, fuel, q) implies in_subtree(a, pid, lo, hi, fuel, q) by {
            if q != pid {
                assert(on_path(c, mp, k, f1, q));
                if q != mp {
                    assert(on_path(c, nx, k, f2, q));
                    assert(on_path(b, nx, k, f2, q));
                    assert(on_path(b, ch, k, f1, q));
                    assert(in_subtree(a, ch, clo, chi, f1, q));
                }
            }
        }
        if on_path(c, nx, k, f2, pid) {
            assert(on_path(b, ch, k, f1, pid));
            assert(in_subtree(a, ch, clo, chi, f1, pid));
        }
    } else {
        assert(lookup_from(c, pid, k, fuel) == lookup_from(c, mp, k, f1));
        assert(ordered_node(b, ch));
        assert(lookup_from(b, ch, k, f1) == Some(leaf_find(cp, k)));
        assert forall|q: int| #[trigger] on_path(c, pid, k, fuel, q) implies in_subtree(a, pid, lo, hi, fuel, q) by {
            if q != pid {
                assert(on_path(c, mp, k, f1, q));
            }
        }
    }
}

/// After the delete in the child, a write of the node and of page `mp` --
/// that child or the sibling `sb` -- that sends a key of `sb` through `mp`
/// the way `sb` did keeps what the key finds.
proof fn lemma_kept_via_sibling(a: Seq<Seq<u8>>, b: Seq<Seq<u8>>, c: Seq<Seq<u8>>, pid: int, key: Seq<u8>, k: Seq<u8>, lo: Option<Seq<u8>>, hi: Option<Seq<u8>>, fuel: nat, mp: int, sb: int)
    requires
        child_done(a, b, pid, key, lo, hi, fuel),
        in_range(k, lo, hi),
        child_index(a[pid], k) != child_index(a[pid], key),
        next_on_path(a[pid], k) == sb,
        c == b.update(mp, c[mp]).update(pid, c[pid]),
        1 <= mp < b.len(),
        mp != pid,
        mp == next_on_path(a[pid], key) || mp == sb,
        in_subtree(a, pid, lo, hi, fuel, mp),
        ordered_node(c, pid),
        !is_leaf_page(c[pid]),
        next_on_path(c[pid], k) == mp,
        ordered_node(c, mp),
        is_leaf_page(c[mp]) == is_leaf_page(a[sb]),
        is_leaf_page(c[mp]) ==> leaf_find(c[mp], k) == leaf_find(a[sb], k),
        !is_leaf_page(c[mp]) ==> next_on_path(c[mp], k) == next_on_path(a[sb], k),
    ensures
        kept_one(a, c, pid, key, k, lo, hi, fuel),
{
    let s = a[pid];
    let ci = child_index(s, key);
    let ch = next_on_path(s, key);
    let clo = child_lo(s, ci, lo);
    let chi = child_hi(s, ci, hi);
    let f1 = (fuel - 1) as nat;
    let f2 = (f1 - 1) as nat;
    lemma_child_valid(a, pid, key, lo, hi, fuel);
    lemma_child_bound_exists(s, k);
    assert(path_ranged(a, pid, k, lo, hi, fuel));
    assert(on_path(a, pid, k, fuel, pid));
    assert(in_subtree(a, pid, lo, hi, fuel, pid));
    lemma_other_child(a, pid, key, k, lo, hi, fuel);
    lemma_child_bound_exists(s, key);
    lemma_range_child_back(s, key, ci, lo, hi);
    assert(on_path(a, ch, key, f1, ch));
    assert(in_subtree(a, ch, clo, chi, f1, ch));
    assert(c.len() == a.len());
    let j = child_index(s, k);
    assert(path_ranged(a, sb, k, child_lo(s, j, lo), child_hi(s, j, hi), f1));
    if !is_leaf_page(a[sb]) {
        let sk = next_on_path(a[sb], k);
        assert(forall|q: int| #[trigger] on_path(a, sk, k, f2, q) ==> on_path(a, sb, k, f1, q));
        assert(!on_path(a, sk, k, f2, sb));
        assert forall|q: int| #[trigger] on_path(a, sk, k, f2, q) implies c[q] == a[q] by {
            assert(on_path(a, sb, k, f1, q));
            lemma_on_path_ordered(a, sb, k, f1, q);
            assert(q != ch);
            assert(b[q] == a[q]);
        }
        lemma_descend_agree(a, c, sk, k, f2);
        assert(f1 > 0);
        assert(lookup_from(c, pid, k, fuel) == lookup_from(c, mp, k, f1));
        assert(lookup_from(c, mp, k, f1) == lookup_from(c, sk, k, f2));
        assert(lookup_from(a, pid, k, fuel) == lookup_from(a, sb, k, f1));
        assert(lookup_from(a, sb, k, f1) == lookup_from(a, sk, k, f2));
        assert forall|q: int| #[trigger] on_path(c, pid, k, fuel, q) implies in_subtree(a, pid, lo, hi, fuel, q) by {
            if q != pid {
                assert(on_path(c, mp, k, f1, q));
                if q != mp {
                    assert(on_path(c, sk, k, f2, q));
                    assert(on_path(a, sk, k, f2, q));
                    assert(on_path(a, sb, k, f1, q));
                    assert(on_path(a, pid, k, fuel, q));
                }
            }
        }
        if on_path(c, sk, k, f2, pid) {
            assert(on_path(a, sb, k, f1, pid));
        }
    } else {
        assert(lookup_from(c, pid, k, fuel) == lookup_from(c, mp, k, f1));
        assert(lookup_from(a, pid, k, fuel) == lookup_from(a, sb, k, f1));
        assert forall|q: int| #[trigger] on_path(c, pid, k, fuel, q) implies in_subtree(a, pid, lo, hi, fuel, q) by {
            if q != pid {
                assert(on_path(c, mp, k, f1, q));
            }
        }
    }
}

/// After the delete in the child, a write of the node and of a page off
/// the search path of a key that goes under neither the child nor the
/// written page keeps what the key finds.
proof fn lemma_kept_other(a: Seq<Seq<u8>>, b: Seq<Seq<u8>>, c: Seq<Seq<u8>>, pid: int, key: Seq<u8>, k: Seq<u8>, lo: Option<Seq<u8>>, hi: Option<Seq<u8>>, fuel: nat, mp: int)
    requires
        child_done(a, b, pid, key, lo, hi, fuel),
        in_range(k, lo, hi),
        child_index(a[pid], k) != child_index(a[pid], key),
        c == b.update(mp, c[mp]).update(pid, c[pid]),
        1 <= mp < b.len(),
        ordered_node(c, pid),
        !is_leaf_page(c[pid]),
        next_on_path(c[pid], k) == next_on_path(a[pid], k),
        !on_path(a, next_on_path(a[pid], k), k, (fuel - 1) as nat, mp),
    ensures
        kept_one(a, c, pid, key, k, lo, hi, fuel),
{
    let s = a[pid];
    let f1 = (fuel - 1) as nat;
    let nk = next_on_path(s, k);
    lemma_child_valid(a, pid, key, lo, hi, fuel);
    assert(path_ranged(a, pid, k, lo, hi, fuel));
    assert(on_path(a, pid, k, fuel, pid));
    assert(in_subtree(a, pid, lo, hi, fuel, pid));
    lemma_other_child(a, pid, key, k, lo, hi, fuel);
    assert(c.len() == a.len());
    assert forall|q: int| #[trigger] on_path(a, nk, k, f1, q) implies c[q] == a[q] by {
        lemma_on_path_ordered(a, nk, k, f1, q);
        assert(q != mp);
        assert(q != pid);
        assert(b[q] == a[q]);
    }
    lemma_descend_agree(a, c, nk, k, f1);
    assert forall|q: int| #[trigger] on_path(c, pid, k, fuel, q) implies in_subtree(a, pid, lo, hi, fuel, q) by {
        if q != pid {
            assert(on_path(c, nk, k, f1, q));
            assert(on_path(a, nk, k, f1, q));
            assert(on_path(a, pid, k, fuel, q));
        }
    }
}

/// A key that goes under another child than the sibling before the child
/// of `key` never searches that sibling.
proof fn lemma_left_sibling_apart(a: Seq<Seq<u8>>, pid: int, key: Seq<u8>, k: Seq<u8>, lo: Option<Seq<u8>>, hi: Option<Seq<u8>>, fuel: nat)
    requires
        subtree_valid(a, pid, lo, hi, fuel),
        in_range(key, lo, hi),
        in_range(k, lo, hi),
        !is_leaf_page(a[pid]),
        fuel > 0,
        child_index(a[pid], key) >= 1,
        child_index(a[pid], k) != child_index(a[pid], key) - 1,
    ensures
        !on_path(
            a,
            next_on_path(a[pid], k),
            k,
            (fuel - 1) as nat,
            child_at_spec(a[pid], child_index(a[pid], key) - 1) as int,
        ),
{
    let s = a[pid];
    let c = child_index(s, key);
    let l = child_at_spec(s, c - 1) as int;
    let f1 = (fuel - 1) as nat;
    assert(path_ranged(a, pid, key, lo, hi, fuel));
    assert(path_roomy(a, pid, key, lo, hi, fuel));
    lemma_child_bound_exists(s, key);
    let kl = if c >= 2 {
        node_key(s, c - 2)
    } else {
        match lo {
            Some(x) => x,
            None => Seq::<u8>::empty(),
        }
    };
    assert(in_range(kl, child_lo(s, c - 1, lo), Some(node_key(s, c - 1)))) by {
        if c >= 2 {
            assert(key_lt(node_keys(s)[c - 2], node_keys(s)[c - 1]));
        } else {
            assert(room_below(lo, node_key(s, 0)));
            if lo is None {
                assert(key_lt(Seq::<u8>::empty(), node_key(s, 0)));
            }
        }
    }
    lemma_range_child(s, kl, c - 1, lo, hi);
    assert(apart(a, pid, kl, k, fuel));
    assert(next_on_path(s, kl) == l);
    assert(on_path(a, l, kl, f1, l));
}

/// Deleting `key` from the child it goes under, then merging that child
/// with the sibling after it, keeps every other key of the node.
proof fn lemma_kept_step_right(a: Seq<Seq<u8>>, b: Seq<Seq<u8>>, c: Seq<Seq<u8>>, pid: int, key: Seq<u8>, lo: Option<Seq<u8>>, hi: Option<Seq<u8>>, fuel: nat)
    requires
        child_done(a, b, pid, key, lo, hi, fuel),
        merged_at(b, c, pid, child_index(a[pid], key)),
    ensures
        kept_after_delete(a, c, pid, key, lo, hi, fuel),
{
    let s = a[pid];
    let ci = child_index(s, key);
    let ch = next_on_path(s, key);
    let clo = child_lo(s, ci, lo);
    let chi = child_hi(s, ci, hi);
    let f1 = (fuel - 1) as nat;
    let sib = child_at_spec(s, ci + 1) as int;
    let sep = node_key(s, ci);
    lemma_child_valid(a, pid, key, lo, hi, fuel);
    lemma_right_sibling(a, pid, key, lo, hi, fuel);
    lemma_step_right(a, b, c, pid, key, lo, hi, fuel);
    assert(path_ranged(a, pid, key, lo, hi, fuel));
    lemma_child_bound_exists(s, key);
    lemma_range_child_back(s, key, ci, lo, hi);
    let cp = b[ch];
    let m = c[ch];
    assert(b[sib] == a[sib]);
    assert(on_path(a, ch, key, f1, ch));
    assert(in_subtree(a, ch, clo, chi, f1, ch));
    assert(on_path(a, pid, key, fuel, ch));
    assert(in_subtree(a, pid, lo, hi, fuel, ch));
    assert(ordered_node(c, ch) && is_leaf_page(m) == is_leaf_page(cp)) by {
        if is_leaf_page(cp) {
            lemma_merged_leaf(cp, a[sib], sep, m, key);
        } else {
            lemma_room_all(a[sib], sep);
            lemma_merged_internal(cp, a[sib], sep, m, key);
        }
    }
    assert forall|k: Seq<u8>| in_range(k, lo, hi) implies #[trigger] kept_one(a, c, pid, key, k, lo, hi, fuel) by {
        lemma_child_bound_exists(s, k);
        lemma_dropped_routes(s, c[pid], ci, ch as u64, k, lo, hi);
        let j = child_index(s, k);
        if j == ci {
            assert(key_lt(k, sep));
            if is_leaf_page(cp) {
                lemma_merged_leaf_finds(cp, a[sib], sep, m, k);
            } else {
                lemma_room_all(a[sib], sep);
                lemma_merged_internal(cp, a[sib], sep, m, k);
            }
            lemma_kept_via_child(a, b, c, pid, key, k, lo, hi, fuel, ch);
        } else if j == ci + 1 {
            assert(key_le(sep, k));
            if key_lt(k, sep) {
                lemma_key_lt_asymmetric(k, sep);
                lemma_key_lt_irreflexive(k);
            }
            if is_leaf_page(cp) {
                lemma_merged_leaf_finds(cp, a[sib], sep, m, k);
            } else {
                lemma_room_all(a[sib], sep);
                lemma_merged_internal(cp, a[sib], sep, m, k);
            }
            lemma_kept_via_sibling(a, b, c, pid, key, k, lo, hi, fuel, ch, sib);
        } else {
            lemma_other_child(a, pid, key, k, lo, hi, fuel);
            lemma_kept_other(a, b, c, pid, key, k, lo, hi, fuel, ch);
        }
    }
}

/// Deleting `key` from the child it goes under, then merging the sibling
/// before that child with it, keeps every other key of the node.
proof fn lemma_kept_step_left(a: Seq<Seq<u8>>, b: Seq<Seq<u8>>, c: Seq<Seq<u8>>, pid: int, key: Seq<u8>, lo: Option<Seq<u8>>, hi: Option<Seq<u8>>, fuel: nat)
    requires
        child_done(a, b, pid, key, lo, hi, fuel),
        child_index(a[pid], key) >= 1,
        merged_at(b, c, pid, child_index(a[pid], key) - 1),
    ensures
        kept_after_delete(a, c, pid, key, lo, hi, fuel),
{
    let s = a[pid];
    let ci = child_index(s, key);
    let ch = next_on_path(s, key);
    let clo = child_lo(s, ci, lo);
    let chi = child_hi(s, ci, hi);
    let f1 = (fuel - 1) as nat;
    let sib = child_at_spec(s, ci - 1) as int;
    let sep = node_key(s, ci - 1);
    lemma_child_valid(a, pid, key, lo, hi, fuel);
    lemma_left_sibling(a, pid, key, lo, hi, fuel);
    lemma_step_left(a, b, c, pid, key, lo, hi, fuel);
    assert(path_ranged(a, pid, key, lo, hi, fuel));
    lemma_child_bound_exists(s, key);
    let cp = b[ch];
    let m = c[sib];
    assert(b[sib] == a[sib]);
    assert(key_le(sep, key));
    if key_lt(key, sep) {
        lemma_key_lt_asymmetric(key, sep);
        lemma_key_lt_irreflexive(key);
    }
    assert(ordered_node(c, sib) && is_leaf_page(m) == is_leaf_page(cp)) by {
        if is_leaf_page(cp) {
            lemma_merged_leaf(a[sib], cp, sep, m, key);
        } else {
            lemma_room_all(cp, sep);
            lemma_merged_internal(a[sib], cp, sep, m, key);
        }
    }
    assert forall|k: Seq<u8>| in_range(k, lo, hi) implies #[trigger] kept_one(a, c, pid, key, k, lo, hi, fuel) by {
        lemma_child_bound_exists(s, k);
        lemma_dropped_routes(s, c[pid], ci - 1, sib as u64, k, lo, hi);
        let j = child_index(s, k);
        if j == ci {
            assert(key_le(sep, k));
            if key_lt(k, sep) {
                lemma_key_lt_asymmetric(k, sep);
                lemma_key_lt_irreflexive(k);
            }
            if is_leaf_page(cp) {
                lemma_merged_leaf_finds(a[sib], cp, sep, m, k);
            } else {
                lemma_room_all(cp, sep);
                lemma_merged_internal(a[sib], cp, sep, m, k);
            }
            lemma_kept_via_child(a, b, c, pid, key, k, lo, hi, fuel, sib);
        } else if j == ci - 1 {
            assert(key_lt(k, sep));
            if is_leaf_page(cp) {
                lemma_merged_leaf_finds(a[sib], cp, sep, m, k);
            } else {
                lemma_room_all(cp, sep);
                lemma_merged_internal(a[sib], cp, sep, m, k);
            }
            lemma_kept_via_sibling(a, b, c, pid, key, k, lo, hi, fuel, sib, sib);
        } else {
            lemma_left_sibling_apart(a, pid, key, k, lo, hi, fuel);
            lemma_kept_other(a, b, c, pid, key, k, lo, hi, fuel, sib);
        }
    }
}

/// A root left with no entry hands over to its only child: a key whose
/// search from the old root ended finds the same from the child, through
/// the new meta page.
proof fn lemma_collapse_keeps(a: Seq<Seq<u8>>, b: Seq<Seq<u8>>, root: int, child: int, k: Seq<u8>, fuel: nat)
    requires
        lookup_from(a, root, k, fuel) is Some,
        ordered_node(a, root),
        is_internal_page(a[root]),
        slot_count_of(a[root]) == 0,
        link_of(a[root]) == child,
        fuel == a.len(),
        b.len() == a.len(),
        forall|q: int| 1 <= q < a.len() ==> #[trigger] b[q] == a[q],
        meta_root(b[0]) == child,
    ensures
        tree_lookup(b, k) == lookup_from(a, root, k, fuel),
{
    let t = a[root];
    assert(child_bound(t, k, 0));
    lemma_child_bound_unique(t, k, 0);
    assert(next_on_path(t, k) == child);
    let f1 = (fuel - 1) as nat;
    assert(descend(a, child, k, f1) is Some);
    assert forall|q: int| #[trigger] on_path(a, child, k, f1, q) implies b[q] == a[q] by {
        lemma_on_path_ordered(a, child, k, f1, q);
    }
    lemma_descend_agree(a, b, child, k, f1);
    lemma_descend_more_fuel(b, child, k, f1, b.len());
}

/// Writes `page` over node `page_id`, pinned in `frame`, and unpins it.
fn store_node(pool: &mut BufferPool, frame: usize, page_id: PageId, page: crate::page::Page)
    requires
        old(pool).wf(),
        crate::btree::tree::pinned_alone(&*old(pool), frame as int),
        old(pool).frame_of(frame as int) == Some(page_id),
        1 <= page_id.0 < old(pool).pages().len(),
        node_ok(old(pool).pages()[page_id.0 as int]),
        slotted_wf(page@),
        pages_ok(old(pool).pages()),
        nodes_frame(old(pool).pages(), old(pool).pages()),
    ensures
        final(pool).wf(),
        final(pool).all_unpinned(),
        final(pool).frame_count() == old(pool).frame_count(),
        final(pool).pages() == old(pool).pages().update(page_id.0 as int, page@),
        pages_ok(final(pool).pages()),
        nodes_frame(old(pool).pages(), final(pool).pages()),
{
    let ghost pages0 = pool.pages();
    let ghost x = page@;
    *pool.page_mut(frame) = page;
    release(pool, frame);
    proof {
        lemma_nodes_frame_update(pages0, pages0, page_id.0 as int, x);
        let b = pool.pages();
        assert forall|q: int| 1 <= q < b.len() implies page_ok(#[trigger] b[q]) by {
            if q != page_id.0 {
                assert(b[q] == pages0[q]);
            }
        }
    }
}

/// Removes `key` from the subtree under `page_id`. Returns whether it was
/// there, and whether the node at `page_id` is left underfull.
fn delete_from(
    pool: &mut BufferPool,
    page_id: PageId,
    key: &[u8],
    fuel: u64,
    Ghost(lo): Ghost<Option<Seq<u8>>>,
    Ghost(hi): Ghost<Option<Seq<u8>>>,
) -> (r: Result<(bool, bool)>)
    requires
        tree_ready(old(pool)),
    ensures
        subtree_valid(old(pool).pages(), page_id.0 as int, lo, hi, fuel as nat) && in_range(key@, lo, hi)
            ==> (r is Ok ==> deleted(old(pool).pages(), final(pool).pages(), page_id.0 as int, key@, lo, hi, fuel as nat)
            && kept_after_delete(old(pool).pages(), final(pool).pages(), page_id.0 as int, key@, lo, hi, fuel as nat)),
        tree_ready(final(pool)),
        final(pool).frame_count() == old(pool).frame_count(),
        nodes_frame(old(pool).pages(), final(pool).pages()),
        final(pool).pages().len() == old(pool).pages().len(),
        match r {
            Ok((removed, _)) => removed ==> exists|rid: RecordId| has_entry(old(pool).pages(), key@, rid),
            Err(e) => delete_error(e),
        },
        r matches Ok((removed, left_underfull)) ==> (descend(
            old(pool).pages(),
            page_id.0 as int,
            key@,
            fuel as nat,
        ) matches Some(leaf) ==> (removal_keeps_leaf_full(old(pool).pages()[leaf], key@) ==> (
        leaf_updated(old(pool).pages(), final(pool).pages(), leaf, key@, None) && removed == (
        leaf_find(old(pool).pages()[leaf], key@) is Some) && !left_underfull))),
        path_ranged(old(pool).pages(), page_id.0 as int, key@, lo, hi, fuel as nat) && (descend(
            old(pool).pages(),
            page_id.0 as int,
            key@,
            fuel as nat,
        ) matches Some(leaf) && removal_keeps_leaf_full(old(pool).pages()[leaf], key@)) ==> r is Ok,
        r matches Ok((removed, _)) ==> (descend(old(pool).pages(), page_id.0 as int, key@, fuel as nat) matches Some(
            leaf,
        ) ==> removed == (leaf_find(old(pool).pages()[leaf], key@) is Some)),
        is_leaf_page(old(pool).pages()[page_id.0 as int]) ==> (r matches Ok((removed, _)) ==> {
            &&& final(pool).pages() == old(pool).pages().update(page_id.0 as int, final(pool).pages()[page_id.0 as int])
            &&& link_of(final(pool).pages()[page_id.0 as int]) == link_of(old(pool).pages()[page_id.0 as int])
            &&& !removed ==> final(pool).pages() == old(pool).pages()
        }),
        descend(old(pool).pages(), page_id.0 as int, key@, fuel as nat) matches Some(leaf) ==> (!underfull(
            old(pool).pages()[leaf],
        ) ==> (r matches Ok((false, u)) ==> final(pool).pages() == old(pool).pages() && !u)),
        subtree_valid(old(pool).pages(), page_id.0 as int, lo, hi, fuel as nat) && in_range(key@, lo, hi) && path_alike(
            old(pool).pages(),
            page_id.0 as int,
            key@,
            fuel as nat,
        ) ==> r is Ok,
    decreases fuel,
{
    let ghost pages0 = pool.pages();
    proof {
        lemma_nodes_frame_refl(pages0);
    }
    let frame = match fetch_node(pool, page_id) {
        Ok(f) => f,
        Err(e) => return Err(e),
    };
    let ghost p = page_id.0 as int;
    let ghost s = pages0[p];
    if !pool.page(frame).is_leaf() {
        let child_slot = match pool.page(frame).child_slot_for_key(key) {
            Ok(c) => c,
            Err(e) => {
                release(pool, frame);
                return Err(e);
            },
        };
        let child = match pool.page(frame).child_at(child_slot) {
            Ok(c) => c,
            Err(e) => {
                release(pool, frame);
                return Err(e);
            },
        };
        let ghost valid = subtree_valid(pages0, p, lo, hi, fuel as nat) && in_range(key@, lo, hi);
        proof {
            if valid {
                assert(path_ranged(pages0, p, key@, lo, hi, fuel as nat));
                lemma_path_ranged_descends(pages0, p, key@, lo, hi, fuel as nat);
            }
            if descend(pages0, p, key@, fuel as nat) is Some {
                lemma_child_bound_unique(s, key@, child_slot as int);
            }
        }
        let ghost clo = child_lo(s, child_slot as int, lo);
        let ghost chi = child_hi(s, child_slot as int, hi);
        release(pool, frame);
        if fuel == 0 {
            return Err(Error::CorruptPage(page_id.0));
        }
        proof {
            if valid {
                lemma_child_valid(pages0, p, key@, lo, hi, fuel as nat);
                assert(child.0 as int == next_on_path(s, key@));
            }
        }
        let (removed, underfull) = match delete_from(pool, child, key, fuel - 1, Ghost(clo), Ghost(chi)) {
            Ok(x) => x,
            Err(e) => return Err(e),
        };
        let ghost pages1 = pool.pages();
        proof {
            if valid {
                assert(pages1[p] == s);
            }
        }
        if !underfull {
            proof {
                if valid {
                    lemma_step_kept(pages0, pages1, p, key@, lo, hi, fuel as nat);
                    lemma_kept_step_none(pages0, pages1, p, key@, lo, hi, fuel as nat);
                }
            }
            return Ok((removed, false));
        }
        proof {
            if valid && path_alike(pages0, p, key@, fuel as nat) {
                let ci = child_slot as int;
                let cp = child.0 as int;
                assert(ordered_node(pages1, cp));
                assert(cp != p) by {
                    assert(on_path(pages0, cp, key@, (fuel - 1) as nat, cp));
                }
                assert(in_subtree(pages0, cp, clo, chi, (fuel - 1) as nat, cp)) by {
                    assert(on_path(pages0, cp, key@, (fuel - 1) as nat, cp));
                }
                if ci < slot_count_of(s) {
                    lemma_right_sibling(pages0, p, key@, lo, hi, fuel as nat);
                    let r = child_at_spec(s, ci + 1) as int;
                    assert(pages1[r] == pages0[r]);
                    assert(pair_fits(pages1, p, ci) is Some);
                }
                if ci >= 1 {
                    lemma_left_sibling(pages0, p, key@, lo, hi, fuel as nat);
                    let l = child_at_spec(s, ci - 1) as int;
                    assert(pages1[l] == pages0[l]);
                    assert(pair_fits(pages1, p, ci - 1) is Some);
                }
                assert(rebalance_owed(pages1, p, ci));
            }
        }
        match rebalance_child(pool, page_id, child_slot) {
            Ok(()) => {},
            Err(e) => {
                proof {
                    lemma_frames_trans(pages0, pages1, pool.pages());
                }
                return Err(e);
            },
        }
        let ghost pages2 = pool.pages();
        proof {
            lemma_frames_trans(pages0, pages1, pages2);
            if valid {
                let ci = child_slot as int;
                if pages2 == pages1 {
                    lemma_step_kept(pages0, pages1, p, key@, lo, hi, fuel as nat);
                    lemma_kept_step_none(pages0, pages1, p, key@, lo, hi, fuel as nat);
                } else if merged_at(pages1, pages2, p, ci) {
                    lemma_step_right(pages0, pages1, pages2, p, key@, lo, hi, fuel as nat);
                    lemma_kept_step_right(pages0, pages1, pages2, p, key@, lo, hi, fuel as nat);
                } else if ci >= 1 && merged_at(pages1, pages2, p, ci - 1) {
                    lemma_step_left(pages0, pages1, pages2, p, key@, lo, hi, fuel as nat);
                    lemma_kept_step_left(pages0, pages1, pages2, p, key@, lo, hi, fuel as nat);
                } else if child_at_spec(pages1[p], ci) == p {
                    assert(on_path(pages0, child.0 as int, key@, (fuel - 1) as nat, child.0 as int));
                    assert(in_subtree(pages0, child.0 as int, clo, chi, (fuel - 1) as nat, p));
                } else {
                    lemma_left_sibling(pages0, p, key@, lo, hi, fuel as nat);
                }
            }
        }
        let frame = match fetch_node(pool, page_id) {
            Ok(f) => f,
            Err(e) => return Err(e),
        };
        let underfull = pool.page(frame).is_underfull();
        release(pool, frame);
        return Ok((removed, underfull));
    }
    let (found, slot) = match pool.page(frame).search_slot(key) {
        Ok(x) => x,
        Err(e) => {
            release(pool, frame);
            return Err(e);
        },
    };
    proof {
        if found {
            assert(node_key(s, slot as int) == key@);
            assert(leaf_has(pages0, p, key@, leaf_rid(s, slot as int)));
            assert(has_entry(pages0, key@, leaf_rid(s, slot as int)));
        }
    }
    let mut page = pool.page(frame).copy();
    if found {
        let _ = page.remove_slot_at(slot);
    }
    let underfull = page.is_underfull();
    let ghost t = page@;
    store_node(pool, frame, page_id, page);
    proof {
        if subtree_valid(pages0, p, lo, hi, fuel as nat) && in_range(key@, lo, hi) {
            assert(path_ranged(pages0, p, key@, lo, hi, fuel as nat));
            lemma_path_ranged_descends(pages0, p, key@, lo, hi, fuel as nat);
        }
        if descend(pages0, p, key@, fuel as nat) is Some && keys_sorted(node_keys(s)) {
            if found {
                assert forall|i: int| 0 <= i < slot_count_of(t) implies (#[trigger] records_of(t)[i]) is Some
                    && records_of(t)[i]->0.len() >= entry_header(s) by {
                    if i < slot {
                        assert(records_of(t)[i] == records_of(s)[i]);
                    } else {
                        assert(records_of(t)[i] == records_of(s)[i + 1]);
                    }
                }
                crate::btree::node::lemma_node_records_change(s, t);
                lemma_leaf_removed(s, t, slot as int, key@);
                if subtree_valid(pages0, p, lo, hi, fuel as nat) && in_range(key@, lo, hi) {
                    assert forall|i: int| 0 <= i < slot_count_of(t) implies above(#[trigger] node_key(t, i), lo)
                        && below(node_key(t, i), hi) by {
                        let si = if i < slot {
                            i
                        } else {
                            i + 1
                        };
                        assert(node_key(t, i) == node_key(s, si));
                    }
                    assert(pool.pages() == pages0.update(p, t));
                    lemma_leaf_deleted(pages0, pool.pages(), p, key@, lo, hi, fuel as nat);
                    lemma_leaf_kept(pages0, pool.pages(), p, key@, lo, hi, fuel as nat);
                }
                lemma_leaf_find_at(s, key@, slot as int);
                let i = choose|i: int| 0 <= i < slot_count_of(s) && #[trigger] node_key(s, i) == key@;
                assert(node_key(s, i) == key@);
                if i < slot {
                    assert(key_lt(node_keys(s)[i], node_keys(s)[slot as int]));
                    lemma_key_lt_irreflexive(key@);
                } else if i > slot {
                    assert(key_lt(node_keys(s)[slot as int], node_keys(s)[i]));
                    lemma_key_lt_irreflexive(key@);
                }
            } else {
                assert(t == s);
                assert forall|i: int| 0 <= i < slot_count_of(s) implies #[trigger] node_key(s, i) != key@ by {
                    lemma_key_lt_irreflexive(key@);
                }
                assert(pool.pages() =~= pages0);
                if subtree_valid(pages0, p, lo, hi, fuel as nat) && in_range(key@, lo, hi) {
                    lemma_leaf_deleted(pages0, pool.pages(), p, key@, lo, hi, fuel as nat);
                    lemma_leaf_kept(pages0, pool.pages(), p, key@, lo, hi, fuel as nat);
                }
            }
        }
    }
    Ok((found, underfull))
}

/// Merges the underfull child at `child_slot` of `parent` into a sibling:
/// its right one first, else its left one, whichever pair fits in a page.
/// A pair that does not fit is left as it is.
fn rebalance_child(pool: &mut BufferPool, parent: PageId, child_slot: u16) -> (r: Result<()>)
    requires
        tree_ready(old(pool)),
    ensures
        tree_ready(final(pool)),
        final(pool).frame_count() == old(pool).frame_count(),
        nodes_frame(old(pool).pages(), final(pool).pages()),
        final(pool).pages().len() == old(pool).pages().len(),
        r is Ok ==> rebalanced(old(pool).pages(), final(pool).pages(), parent.0 as int, child_slot as int),
        r is Ok ==> match rebalance_plan(old(pool).pages(), parent.0 as int, child_slot as int) {
            Some(ls) => child_at_spec(old(pool).pages()[parent.0 as int], ls) != parent.0 ==> merged_at(
                old(pool).pages(),
                final(pool).pages(),
                parent.0 as int,
                ls,
            ),
            None => final(pool).pages() == old(pool).pages(),
        },
        !(1 <= parent.0 < old(pool).pages().len() && node_ok(old(pool).pages()[parent.0 as int])) ==> r is Err,
        rebalance_owed(old(pool).pages(), parent.0 as int, child_slot as int) ==> r is Ok,
        1 <= parent.0 < old(pool).pages().len() && node_ok(old(pool).pages()[parent.0 as int]) && ((child_slot
            < slot_count_of(old(pool).pages()[parent.0 as int])) ==> pair_fits(
            old(pool).pages(),
            parent.0 as int,
            child_slot as int,
        ) == Some(false)) && (child_slot >= 1 ==> pair_fits(
            old(pool).pages(),
            parent.0 as int,
            child_slot - 1,
        ) == Some(false)) ==> r == Ok::<(), Error>(()) && final(pool).pages() == old(pool).pages(),
        match r {
            Ok(()) => true,
            Err(e) => delete_error(e),
        },
{
    let ghost pages0 = pool.pages();
    proof {
        lemma_nodes_frame_refl(pages0);
    }
    let frame = match fetch_node(pool, parent) {
        Ok(f) => f,
        Err(e) => return Err(e),
    };
    let slot_count = pool.page(frame).slot_count();
    release(pool, frame);
    if child_slot < slot_count {
        let fits = match merge_fits(pool, parent, child_slot) {
            Ok(b) => b,
            Err(e) => return Err(e),
        };
        if fits {
            return merge_children(pool, parent, child_slot);
        }
    }
    if child_slot > 0 {
        let fits = match merge_fits(pool, parent, child_slot - 1) {
            Ok(b) => b,
            Err(e) => return Err(e),
        };
        if fits {
            return merge_children(pool, parent, child_slot - 1);
        }
    }
    Ok(())
}

/// Whether child `left_slot + 1` of `parent` fits into child `left_slot`,
/// with the separator between them pulled down for internal nodes.
fn merge_fits(pool: &mut BufferPool, parent: PageId, left_slot: u16) -> (r: Result<bool>)
    requires
        tree_ready(old(pool)),
    ensures
        tree_ready(final(pool)),
        final(pool).frame_count() == old(pool).frame_count(),
        final(pool).pages() == old(pool).pages(),
        match r {
            Ok(b) => pair_fits(old(pool).pages(), parent.0 as int, left_slot as int) == Some(b),
            Err(e) => delete_error(e) && pair_fits(old(pool).pages(), parent.0 as int, left_slot as int) is None,
        },
{
    let frame = match fetch_node(pool, parent) {
        Ok(f) => f,
        Err(e) => return Err(e),
    };
    if !pool.page(frame).is_internal() || left_slot >= pool.page(frame).slot_count() {
        release(pool, frame);
        return Err(Error::CorruptPage(parent.0));
    }
    let left = match pool.page(frame).child_at(left_slot) {
        Ok(c) => c,
        Err(e) => {
            release(pool, frame);
            return Err(e);
        },
    };
    let right = match pool.page(frame).child_at(left_slot + 1) {
        Ok(c) => c,
        Err(e) => {
            release(pool, frame);
            return Err(e);
        },
    };
    let separator = match pool.page(frame).internal_key(left_slot) {
        Ok(k) => vstd::slice::slice_to_vec(k),
        Err(e) => {
            release(pool, frame);
            return Err(e);
        },
    };
    release(pool, frame);

    let frame = match fetch_node(pool, left) {
        Ok(f) => f,
        Err(e) => return Err(e),
    };
    let is_leaf = pool.page(frame).is_leaf();
    let available = pool.page(frame).free_space() + pool.page(frame).frag_space();
    release(pool, frame);

    let frame = match fetch_node(pool, right) {
        Ok(f) => f,
        Err(e) => return Err(e),
    };
    let incoming = pool.page(frame).live_bytes();
    release(pool, frame);

    let separator = if is_leaf {
        None
    } else {
        Some(separator.as_slice())
    };
    Ok(merged_fits(incoming, available, separator))
}

/// Moves every entry of child `left_slot + 1` of `parent` into child
/// `left_slot`, pulling the separator between them down for internal nodes,
/// and drops the right child from the parent.
#[verifier::spinoff_prover]
#[verifier::rlimit(100)]
fn merge_children(pool: &mut BufferPool, parent: PageId, left_slot: u16) -> (r: Result<()>)
    requires
        tree_ready(old(pool)),
    ensures
        tree_ready(final(pool)),
        final(pool).frame_count() == old(pool).frame_count(),
        nodes_frame(old(pool).pages(), final(pool).pages()),
        final(pool).pages().len() == old(pool).pages().len(),
        r is Ok && child_at_spec(old(pool).pages()[parent.0 as int], left_slot as int) != parent.0
            ==> merged_at(old(pool).pages(), final(pool).pages(), parent.0 as int, left_slot as int),
        merge_owed(old(pool).pages(), parent.0 as int, left_slot as int) ==> r is Ok,
        match r {
            Ok(()) => true,
            Err(e) => delete_error(e),
        },
{
    let ghost pages0 = pool.pages();
    proof {
        lemma_nodes_frame_refl(pages0);
    }
    let frame = match fetch_node(pool, parent) {
        Ok(f) => f,
        Err(e) => return Err(e),
    };
    if !pool.page(frame).is_internal() || left_slot >= pool.page(frame).slot_count() {
        release(pool, frame);
        return Err(Error::CorruptPage(parent.0));
    }
    let left = match pool.page(frame).child_at(left_slot) {
        Ok(c) => c,
        Err(e) => {
            release(pool, frame);
            return Err(e);
        },
    };
    let right = match pool.page(frame).child_at(left_slot + 1) {
        Ok(c) => c,
        Err(e) => {
            release(pool, frame);
            return Err(e);
        },
    };
    let separator = match pool.page(frame).internal_key(left_slot) {
        Ok(k) => vstd::slice::slice_to_vec(k),
        Err(e) => {
            release(pool, frame);
            return Err(e);
        },
    };
    let ghost ps0 = pages0[parent.0 as int];
    release(pool, frame);

    let frame = match fetch_node(pool, right) {
        Ok(f) => f,
        Err(e) => return Err(e),
    };
    let ghost rs = pool.pages()[right.0 as int];
    let is_leaf = pool.page(frame).is_leaf();
    let moved = match pool.page(frame).entries() {
        Ok(v) => v,
        Err(e) => {
            release(pool, frame);
            return Err(e);
        },
    };
    let right_link = pool.page(frame).next_leaf();
    release(pool, frame);
    proof {
        assert forall|k: int| 0 <= k < moved@.len() implies (#[trigger] moved@[k])@.len() <= PAGE_SIZE by {
            lemma_record_len(rs, k);
            assert(records_of(rs)[k] == Some(moved@[k]@));
        }
    }

    let frame = match fetch_node(pool, left) {
        Ok(f) => f,
        Err(e) => return Err(e),
    };
    // both children of one parent are of one kind
    if pool.page(frame).is_leaf() != is_leaf {
        release(pool, frame);
        return Err(Error::CorruptPage(left.0));
    }
    let ghost lsp = pool.pages()[left.0 as int];
    let mut page = pool.page(frame).copy();
    page.compact();
    let ghost compacted = page@;
    proof {
        if merge_owed(pages0, parent.0 as int, left_slot as int) {
            let rr = records_of(rs);
            assert(rr.len() == moved@.len());
            lemma_live_size_entries(rr, moved@, rr.len() as int);
            assert(rr.take(rr.len() as int) =~= rr);
            lemma_entries_size_grows(moved@, 0, moved@.len() as int);
            assert(lsp == pages0[left.0 as int]);
            assert(rs == pages0[right.0 as int]);
            assert(free_bytes_of(compacted) >= free_bytes_of(lsp) + frag_bytes_of(lsp));
            assert(entries_size(moved@, moved@.len() as int) + (if is_leaf {
                0
            } else {
                CHILD_SIZE + separator@.len() + SLOT_SIZE
            }) <= free_bytes_of(compacted));
        }
    }
    if !is_leaf {
        let left_link = match page.rightmost_child() {
            Some(c) => c,
            None => {
                assert(false);
                release(pool, frame);
                return Err(Error::CorruptPage(left.0));
            },
        };
        let pulled_down = encode_internal_entry(left_link, separator.as_slice());
        proof {
            lemma_internal_entry(left_link.0, separator@);
        }
        match page.append_slot(pulled_down.as_slice()) {
            Ok(_) => {},
            Err(e) => {
                store_node(pool, frame, left, page);
                return Err(e);
            },
        }
    }
    let ghost before_moved = page@;
    let n_moved = moved.len();
    match append_entries(&mut page, &moved, 0, n_moved) {
        Ok(()) => {},
        Err(e) => {
            store_node(pool, frame, left, page);
            return Err(e);
        },
    }
    if is_leaf {
        page.set_next_leaf(right_link);
    } else {
        match right_link {
            Some(link) => page.set_rightmost_child(link),
            None => {
                assert(false);
                store_node(pool, frame, left, page);
                return Err(Error::CorruptPage(right.0));
            },
        }
    }
    let ghost pages1 = pool.pages();
    let ghost merged = page@;
    proof {
        assert(records_of(merged) == records_of(lsp) + (if is_leaf {
            Seq::<Option<Seq<u8>>>::empty()
        } else {
            seq![Some(internal_entry(link_of(lsp), separator@))]
        }) + records_of(rs)) by {
            assert(records_of(rs) =~= Seq::new(moved@.len(), |k: int| Some(moved@[k]@)));
            assert(records_of(merged) =~= records_of(before_moved) + records_of(rs));
        }
        if is_leaf {
            assert(records_of(lsp) + Seq::<Option<Seq<u8>>>::empty() =~= records_of(lsp));
        }
    }
    store_node(pool, frame, left, page);
    let ghost pages2 = pool.pages();
    proof {
        lemma_frames_trans(pages0, pages1, pages2);
    }

    let frame = match fetch_node(pool, parent) {
        Ok(f) => f,
        Err(e) => return Err(e),
    };
    if !pool.page(frame).is_internal() {
        release(pool, frame);
        return Err(Error::CorruptPage(parent.0));
    }
    let ghost ps = pool.pages()[parent.0 as int];
    let mut page = pool.page(frame).copy();
    let ghost count_before = slot_count_of(ps);
    match page.remove_slot_at(left_slot) {
        Ok(()) => {},
        Err(e) => {
            store_node(pool, frame, parent, page);
            proof {
                lemma_frames_trans(pages0, pages2, pool.pages());
            }
            return Err(e);
        },
    }
    proof {
        assert forall|i: int| 0 <= i < slot_count_of(page@) implies (#[trigger] records_of(page@)[i]) is Some
            && records_of(page@)[i]->0.len() >= entry_header(ps) by {
            if i < left_slot {
                assert(records_of(page@)[i] == records_of(ps)[i]);
            } else {
                assert(records_of(page@)[i] == records_of(ps)[i + 1]);
            }
        }
        crate::btree::node::lemma_node_records_change(ps, page@);
    }
    let outcome = if left_slot == page.slot_count() {
        page.set_rightmost_child(left);
        Ok(())
    } else {
        page.set_internal_child(left_slot, left)
    };
    let ghost dropped = page@;
    store_node(pool, frame, parent, page);
    proof {
        lemma_frames_trans(pages0, pages2, pool.pages());
        if outcome is Ok && left.0 != parent.0 {
            assert(ps == ps0);
            assert(pool.pages() =~= pages0.update(left.0 as int, merged).update(parent.0 as int, dropped));
        }
    }
    outcome
}

impl BTree {
    /// Removes `key`; returns whether it was there. A root left with no
    /// entry and one child hands the root over to that child.
    pub fn delete(&mut self, key: &[u8]) -> (r: Result<bool>)
        requires
            old(self).wf(),
        ensures
            final(self).wf(),
            final(self).pool.frame_count() == old(self).pool.frame_count(),
            nodes_frame(old(self).pages(), final(self).pages()),
            final(self).pages().len() == old(self).pages().len(),
            match r {
                Ok(removed) => removed ==> exists|rid: RecordId| has_entry(old(self).pages(), key@, rid),
                Err(e) => delete_error(e),
            },
            r is Ok && tree_valid(old(self).pages()) ==> tree_lookup(final(self).pages(), key@) == Some(
                None::<RecordId>,
            ),
            forall|k: Seq<u8>|
                r is Ok && tree_valid(old(self).pages()) && k != key@ ==> #[trigger] tree_lookup(
                    final(self).pages(),
                    k,
                ) == tree_lookup(old(self).pages(), k),
            r matches Ok(removed) ==> (descend(
                old(self).pages(),
                meta_root(old(self).pages()[0]) as int,
                key@,
                old(self).pages().len(),
            ) matches Some(leaf) ==> (removal_keeps_leaf_full(old(self).pages()[leaf], key@) ==> (!(
            is_internal_page(old(self).pages()[meta_root(old(self).pages()[0]) as int])
                && slot_count_of(old(self).pages()[meta_root(old(self).pages()[0]) as int]) == 0)
                ==> leaf_updated(old(self).pages(), final(self).pages(), leaf, key@, None) && removed == (
            leaf_find(old(self).pages()[leaf], key@) is Some)))),
            r is Ok && tree_valid(old(self).pages()) ==> (descend(
                old(self).pages(),
                meta_root(old(self).pages()[0]) as int,
                key@,
                old(self).pages().len(),
            ) matches Some(leaf) ==> (removal_keeps_leaf_full(old(self).pages()[leaf], key@) ==> (!(
            is_internal_page(old(self).pages()[meta_root(old(self).pages()[0]) as int])
                && slot_count_of(old(self).pages()[meta_root(old(self).pages()[0]) as int]) == 0)
                ==> tree_valid(final(self).pages())))),
            search_path_ordered(old(self).pages(), key@) ==> (descend(
                old(self).pages(),
                meta_root(old(self).pages()[0]) as int,
                key@,
                old(self).pages().len(),
            ) matches Some(leaf) ==> (removal_keeps_leaf_full(old(self).pages()[leaf], key@) ==> r == Ok::<
                bool,
                Error,
            >(leaf_find(old(self).pages()[leaf], key@) is Some))),
            r matches Ok(removed) ==> (search_path_ordered(old(self).pages(), key@) ==> removed == (tree_lookup(
                old(self).pages(),
                key@,
            ) matches Some(Some(_)))),
            r == Ok::<bool, Error>(false) ==> (descend(
                old(self).pages(),
                meta_root(old(self).pages()[0]) as int,
                key@,
                old(self).pages().len(),
            ) matches Some(leaf) ==> (!underfull(old(self).pages()[leaf]) && !(is_internal_page(
                old(self).pages()[meta_root(old(self).pages()[0]) as int],
            ) && slot_count_of(old(self).pages()[meta_root(old(self).pages()[0]) as int]) == 0)
                ==> final(self).pages() == old(self).pages())),
            tree_valid(old(self).pages()) && path_alike(
                old(self).pages(),
                meta_root(old(self).pages()[0]) as int,
                key@,
                old(self).pages().len(),
            ) ==> r is Ok,
    {
        let ghost pages0 = self.pages();
        let root = match self.root() {
            Ok(r) => r,
            Err(e) => return Err(e),
        };
        let fuel = match self.pool.page_count() {
            Ok(c) => c,
            Err(e) => return Err(e),
        };
        let (removed, _) = match delete_from(&mut self.pool, root, key, fuel, Ghost(None), Ghost(None)) {
            Ok(x) => x,
            Err(e) => return Err(e),
        };
        let ghost pages1 = self.pages();
        let ghost root_at = meta_root(pages0[0]) as int;
        proof {
            if tree_valid(pages0) {
                assert(deleted(pages0, pages1, root_at, key@, None, None, pages0.len()));
                if in_subtree(pages0, root_at, None, None, pages0.len(), 0) {
                    let k = choose|k: Seq<u8>| in_range(k, None, None) && #[trigger] on_path(pages0, root_at, k, pages0.len(), 0);
                    assert(path_ranged(pages0, root_at, k, None, None, pages0.len()));
                    lemma_path_ranged_descends(pages0, root_at, k, None, None, pages0.len());
                    lemma_on_path_ordered(pages0, root_at, k, pages0.len(), 0);
                }
                assert(pages1[0] == pages0[0]);
            }
        }
        let frame = match fetch_node(&mut self.pool, root) {
            Ok(f) => f,
            Err(e) => return Err(e),
        };
        let collapse = !self.pool.page(frame).is_leaf() && self.pool.page(frame).slot_count() == 0;
        let survivor = if collapse {
            self.pool.page(frame).rightmost_child()
        } else {
            None
        };
        release(&mut self.pool, frame);
        if let Some(child) = survivor {
            let _ = self.set_root(child);
            proof {
                if tree_valid(pages0) {
                    lemma_collapse_keeps(pages1, self.pages(), root_at, child.0 as int, key@, pages0.len());
                    assert forall|k: Seq<u8>| k != key@ implies #[trigger] tree_lookup(self.pages(), k) == tree_lookup(
                        pages0,
                        k,
                    ) by {
                        assert(kept_one(pages0, pages1, root_at, key@, k, None, None, pages0.len()));
                        assert(path_ranged(pages0, root_at, k, None, None, pages0.len()));
                        lemma_path_ranged_descends(pages0, root_at, k, None, None, pages0.len());
                        lemma_collapse_keeps(pages1, self.pages(), root_at, child.0 as int, k, pages0.len());
                    }
                }
            }
        } else {
            proof {
                if tree_valid(pages0) {
                    assert forall|k: Seq<u8>| k != key@ implies #[trigger] tree_lookup(self.pages(), k) == tree_lookup(
                        pages0,
                        k,
                    ) by {
                        assert(kept_one(pages0, pages1, root_at, key@, k, None, None, pages0.len()));
                    }
                }
            }
        }
        proof {
            lemma_frames_trans(pages0, pages1, self.pages());
            if search_path_ordered(pages0, key@) {
                lemma_path_ranged_descends(pages0, root_at, key@, None, None, pages0.len());
            }
            if tree_valid(pages0) {
                if let Some(leaf) = descend(pages0, root_at, key@, pages0.len()) {
                    if removal_keeps_leaf_full(pages0[leaf], key@) && !(is_internal_page(pages0[root_at])
                        && slot_count_of(pages0[root_at]) == 0) {
                        assert(leaf_updated(pages0, self.pages(), leaf, key@, None));
                        law_leaf_update_keeps_valid(pages0, self.pages(), leaf, key@, None);
                    }
                }
            }
        }
        Ok(removed)
    }
}

} // verus!
