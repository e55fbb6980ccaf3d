//! The B+tree: byte-string keys mapped to record ids, over node pages held
//! in the buffer pool. Page 0 is the meta page, which records the root.
use crate::btree::key::{compare_keys, key_le, key_lt, lemma_key_lt_asymmetric, lemma_key_lt_irreflexive, lemma_key_lt_total, lemma_key_lt_transitive};
use crate::btree::node::{child_at_spec, is_internal_page, is_leaf_page, keys_sorted, leaf_rid, node_key, node_keys, node_ok, NO_PAGE};
use crate::buffer::{BufferPool, FrameId};
use crate::disk::DiskManager;
use crate::error::{Error, Result};
use crate::heap::heap_ready;
use crate::page::meta::{meta_heap_tail, meta_next_timestamp, meta_root, meta_valid, FIRST_TIMESTAMP, META_PAGE, OFF_ROOT};
use crate::page::slotted::{link_of, page_ok, pages_ok, slot_count_of};
use crate::page::{le64, lemma_page_len, splice, PageId, RecordId};
use vstd::prelude::*;

verus! {

broadcast use lemma_page_len;

/// Page `p` is a leaf of the tree holding `key`, pointing at `rid`.
pub open spec fn leaf_has(pages: Seq<Seq<u8>>, p: int, key: Seq<u8>, rid: RecordId) -> bool {
    &&& 1 <= p < pages.len()
    &&& node_ok(pages[p])
    &&& is_leaf_page(pages[p])
    &&& exists|i: int|
        0 <= i < slot_count_of(pages[p]) && #[trigger] node_key(pages[p], i) == key && leaf_rid(
            pages[p],
            i,
        ) == rid
}

/// Some leaf holds `key`, pointing at `rid`.
pub open spec fn has_entry(pages: Seq<Seq<u8>>, key: Seq<u8>, rid: RecordId) -> bool {
    exists|p: int| #[trigger] leaf_has(pages, p, key, rid)
}

/// `c` is where `key` goes among the keys of node `s`: after every key at or
/// below it, before every key above it.
pub open spec fn child_bound(s: Seq<u8>, key: Seq<u8>, c: int) -> bool {
    &&& 0 <= c <= slot_count_of(s)
    &&& forall|i: int| 0 <= i < c ==> key_le(#[trigger] node_key(s, i), key)
    &&& forall|i: int| c <= i < slot_count_of(s) ==> key_lt(key, #[trigger] node_key(s, i))
}

/// The position of the child of node `s` that `key` belongs under.
pub open spec fn child_index(s: Seq<u8>, key: Seq<u8>) -> int {
    choose|c: int| child_bound(s, key, c)
}

/// At most one position fits a key, so a position that fits is the one.
pub proof fn lemma_child_bound_unique(s: Seq<u8>, key: Seq<u8>, c: int)
    requires
        child_bound(s, key, c),
    ensures
        child_index(s, key) == c,
{
    let d = child_index(s, key);
    assert(child_bound(s, key, d));
    if d < c {
        lemma_key_lt_asymmetric(key, node_key(s, d));
        lemma_key_lt_irreflexive(key);
    } else if c < d {
        lemma_key_lt_asymmetric(key, node_key(s, c));
        lemma_key_lt_irreflexive(key);
    }
}

/// The record id that leaf `s` holds for `key`, if it holds the key.
pub open spec fn leaf_find(s: Seq<u8>, key: Seq<u8>) -> Option<RecordId> {
    if exists|i: int| 0 <= i < slot_count_of(s) && #[trigger] node_key(s, i) == key {
        Some(
            leaf_rid(s, choose|i: int| 0 <= i < slot_count_of(s) && #[trigger] node_key(s, i) == key),
        )
    } else {
        None
    }
}

/// In a leaf with its keys in order, the entry with the key is the one.
pub proof fn lemma_leaf_find_at(s: Seq<u8>, key: Seq<u8>, i: int)
    requires
        keys_sorted(node_keys(s)),
        0 <= i < slot_count_of(s),
        node_key(s, i) == key,
    ensures
        leaf_find(s, key) == Some(leaf_rid(s, i)),
{
    let j = choose|j: int| 0 <= j < slot_count_of(s) && #[trigger] node_key(s, j) == key;
    assert(node_key(s, j) == key);
    if j < i {
        assert(key_lt(node_keys(s)[j], node_keys(s)[i]));
        lemma_key_lt_irreflexive(key);
    } else if i < j {
        assert(key_lt(node_keys(s)[i], node_keys(s)[j]));
        lemma_key_lt_irreflexive(key);
    }
}

/// Page `pid` is a node with its keys in order.
pub open spec fn ordered_node(pages: Seq<Seq<u8>>, pid: int) -> bool {
    &&& 1 <= pid < pages.len()
    &&& node_ok(pages[pid])
    &&& keys_sorted(node_keys(pages[pid]))
}

/// The leaf that `key` leads to from node `pid`, through at most `fuel`
/// internal nodes, when every node on the way has its keys in order.
pub open spec fn descend(pages: Seq<Seq<u8>>, pid: int, key: Seq<u8>, fuel: nat) -> Option<int>
    decreases fuel,
{
    if !ordered_node(pages, pid) {
        None
    } else if is_leaf_page(pages[pid]) {
        Some(pid)
    } else if fuel == 0 {
        None
    } else {
        descend(
            pages,
            child_at_spec(pages[pid], child_index(pages[pid], key)) as int,
            key,
            (fuel - 1) as nat,
        )
    }
}

/// A descent ends at an ordered leaf.
pub proof fn lemma_descend_leaf(pages: Seq<Seq<u8>>, pid: int, key: Seq<u8>, fuel: nat)
    requires
        descend(pages, pid, key, fuel) is Some,
    ensures
        ordered_node(pages, descend(pages, pid, key, fuel)->0),
        is_leaf_page(pages[descend(pages, pid, key, fuel)->0]),
    decreases fuel,
{
    if ordered_node(pages, pid) && !is_leaf_page(pages[pid]) && fuel > 0 {
        lemma_descend_leaf(
            pages,
            child_at_spec(pages[pid], child_index(pages[pid], key)) as int,
            key,
            (fuel - 1) as nat,
        );
    }
}

/// From `a` to `b` only the ordered leaf `leaf` changed; it stays an
/// ordered leaf linked to the leaf it linked to, holds `found` under `key`
/// (`None`: not the key), and holds every other key as it did.
pub open spec fn leaf_updated(a: Seq<Seq<u8>>, b: Seq<Seq<u8>>, leaf: int, key: Seq<u8>, found: Option<RecordId>) -> bool {
    &&& b.len() == a.len()
    &&& ordered_node(a, leaf)
    &&& is_leaf_page(a[leaf])
    &&& link_of(b[leaf]) == link_of(a[leaf])
    &&& ordered_node(b, leaf)
    &&& is_leaf_page(b[leaf])
    &&& forall|q: int| 0 <= q < a.len() && q != leaf ==> #[trigger] b[q] == a[q]
    &&& forall|k: Seq<u8>|
        #[trigger] leaf_find(b[leaf], k) == if k == key {
            found
        } else {
            leaf_find(a[leaf], k)
        }
}

/// Changing one leaf as an insert or delete in place does leaves the leaf
/// chain as it was: every page links where it linked.
pub proof fn law_leaf_update_keeps_links(a: Seq<Seq<u8>>, b: Seq<Seq<u8>>, leaf: int, key: Seq<u8>, found: Option<RecordId>)
    requires
        leaf_updated(a, b, leaf, key, found),
    ensures
        b.len() == a.len(),
        forall|q: int| 0 <= q < a.len() ==> #[trigger] link_of(b[q]) == link_of(a[q]),
{
    assert forall|q: int| 0 <= q < a.len() implies #[trigger] link_of(b[q]) == link_of(a[q]) by {
        if q != leaf {
            assert(b[q] == a[q]);
        }
    }
}

/// Changing one ordered leaf into another changes no search path.
pub proof fn lemma_descend_frame(a: Seq<Seq<u8>>, b: Seq<Seq<u8>>, leaf: int, key: Seq<u8>, found: Option<RecordId>, pid: int, k: Seq<u8>, fuel: nat)
    requires
        leaf_updated(a, b, leaf, key, found),
        descend(a, pid, k, fuel) is Some,
    ensures
        descend(b, pid, k, fuel) == descend(a, pid, k, fuel),
    decreases fuel,
{
    if pid != leaf {
        assert(b[pid] == a[pid]);
        if !is_leaf_page(a[pid]) && fuel > 0 {
            lemma_descend_frame(
                a,
                b,
                leaf,
                key,
                found,
                child_at_spec(a[pid], child_index(a[pid], k)) as int,
                k,
                (fuel - 1) as nat,
            );
        }
    }
}

/// A change confined to the leaf that a key leads to -- an insert that
/// finds room in it, or a delete that leaves it at least half full -- on a
/// tree whose search paths are in order, makes lookup of the key find what
/// the leaf now holds for it, and leaves what every other key's lookup
/// finds.
pub proof fn law_lookup_after_leaf_change(a: Seq<Seq<u8>>, b: Seq<Seq<u8>>, leaf: int, key: Seq<u8>, found: Option<RecordId>, k: Seq<u8>)
    requires
        leaf_updated(a, b, leaf, key, found),
        descend(a, meta_root(a[0]) as int, key, a.len()) == Some(leaf),
        tree_lookup(a, k) is Some,
    ensures
        tree_lookup(b, k) == Some(
            if k == key {
                found
            } else {
                tree_lookup(a, k)->0
            },
        ),
{
    let root = meta_root(a[0]) as int;
    assert(b[0] == a[0]);
    lemma_descend_frame(a, b, leaf, key, found, root, k, a.len());
    lemma_descend_leaf(a, root, k, a.len());
    let p = descend(a, root, k, a.len())->0;
    if p != leaf {
        assert(b[p] == a[p]);
        if k == key {
            assert(false);
        }
    }
    assert(leaf_find(b[leaf], k) == if k == key {
        found
    } else {
        leaf_find(a[leaf], k)
    });
}

/// What looking `key` up finds, when its search path is in order: the
/// record id that the leaf it leads to holds for it, if any.
pub open spec fn tree_lookup(pages: Seq<Seq<u8>>, key: Seq<u8>) -> Option<Option<RecordId>> {
    match descend(pages, meta_root(pages[0]) as int, key, pages.len()) {
        Some(p) => Some(leaf_find(pages[p], key)),
        None => None,
    }
}

/// `k` is at or above the lower bound `lo`; `None` is no bound.
pub open spec fn above(k: Seq<u8>, lo: Option<Seq<u8>>) -> bool {
    match lo {
        Some(l) => key_le(l, k),
        None => true,
    }
}

/// `k` is strictly above the lower bound `lo`.
pub open spec fn strictly_above(k: Seq<u8>, lo: Option<Seq<u8>>) -> bool {
    match lo {
        Some(l) => key_lt(l, k),
        None => true,
    }
}

/// `k` is below the upper bound `hi`; `None` is no bound.
pub open spec fn below(k: Seq<u8>, hi: Option<Seq<u8>>) -> bool {
    match hi {
        Some(h) => key_lt(k, h),
        None => true,
    }
}

/// Every key of node `s` lies in `[lo, hi)`.
pub open spec fn keys_within(s: Seq<u8>, lo: Option<Seq<u8>>, hi: Option<Seq<u8>>) -> bool {
    forall|i: int|
        0 <= i < slot_count_of(s) ==> above(#[trigger] node_key(s, i), lo) && below(
            node_key(s, i),
            hi,
        )
}

/// The lower bound of the keys under child `c` of node `s`.
pub open spec fn child_lo(s: Seq<u8>, c: int, lo: Option<Seq<u8>>) -> Option<Seq<u8>> {
    if c == 0 {
        lo
    } else {
        Some(node_key(s, c - 1))
    }
}

/// The upper bound of the keys under child `c` of node `s`.
pub open spec fn child_hi(s: Seq<u8>, c: int, hi: Option<Seq<u8>>) -> Option<Seq<u8>> {
    if c >= slot_count_of(s) {
        hi
    } else {
        Some(node_key(s, c))
    }
}

/// The child of node `s` that `key` leads to.
pub open spec fn next_on_path(s: Seq<u8>, key: Seq<u8>) -> int {
    child_at_spec(s, child_index(s, key)) as int
}

/// Every child pointer of an internal node is set.
pub open spec fn children_set(s: Seq<u8>) -> bool {
    is_internal_page(s) ==> forall|i: int|
        0 <= i < slot_count_of(s) ==> #[trigger] crate::btree::node::entry_child(s, i) != NO_PAGE
}

/// Page `q` is on the search path for `key` from node `pid`.
pub open spec fn on_path(pages: Seq<Seq<u8>>, pid: int, key: Seq<u8>, fuel: nat, q: int) -> bool
    decreases fuel,
{
    q == pid || (ordered_node(pages, pid) && !is_leaf_page(pages[pid]) && fuel > 0 && on_path(
        pages,
        next_on_path(pages[pid], key),
        key,
        (fuel - 1) as nat,
        q,
    ))
}

/// The search path for `key` from node `pid`, whose keys lie in
/// `[lo, hi)`, is in order: every node on it is ordered, has its keys and
/// its child pointers where the nodes above put them, lies on the path once,
/// and `key` belongs in each node's range.
pub open spec fn path_ranged(pages: Seq<Seq<u8>>, pid: int, key: Seq<u8>, lo: Option<Seq<u8>>, hi: Option<Seq<u8>>, fuel: nat) -> bool
    decreases fuel,
{
    let s = pages[pid];
    let c = child_index(s, key);
    &&& ordered_node(pages, pid)
    &&& keys_within(s, lo, hi)
    &&& children_set(s)
    &&& above(key, lo)
    &&& below(key, hi)
    &&& if is_leaf_page(s) {
        true
    } else if fuel == 0 {
        false
    } else {
        &&& !on_path(pages, next_on_path(s, key), key, (fuel - 1) as nat, pid)
        &&& path_ranged(
            pages,
            next_on_path(s, key),
            key,
            child_lo(s, c, lo),
            child_hi(s, c, hi),
            (fuel - 1) as nat,
        )
    }
}

/// The search path for `key` from the root is in order, as it is in every
/// well-formed tree.
pub open spec fn search_path_ordered(pages: Seq<Seq<u8>>, key: Seq<u8>) -> bool {
    path_ranged(pages, meta_root(pages[0]) as int, key, None, None, pages.len())
}

/// What looking `key` up from node `pid` finds, through at most `fuel`
/// internal nodes.
pub open spec fn lookup_from(pages: Seq<Seq<u8>>, pid: int, key: Seq<u8>, fuel: nat) -> Option<Option<RecordId>> {
    match descend(pages, pid, key, fuel) {
        Some(p) => Some(leaf_find(pages[p], key)),
        None => None,
    }
}

/// A search that ends within `fuel` steps ends the same with more.
pub proof fn lemma_descend_more_fuel(pages: Seq<Seq<u8>>, pid: int, key: Seq<u8>, fuel: nat, more: nat)
    requires
        descend(pages, pid, key, fuel) is Some,
        fuel <= more,
    ensures
        descend(pages, pid, key, more) == descend(pages, pid, key, fuel),
        forall|q: int| on_path(pages, pid, key, more, q) == on_path(pages, pid, key, fuel, q),
    decreases fuel,
{
    if ordered_node(pages, pid) && !is_leaf_page(pages[pid]) {
        let next = next_on_path(pages[pid], key);
        lemma_descend_more_fuel(pages, next, key, (fuel - 1) as nat, (more - 1) as nat);
        assert forall|q: int| #[trigger]
            on_path(pages, pid, key, more, q) == on_path(pages, pid, key, fuel, q) by {
            assert(on_path(pages, next, key, (more - 1) as nat, q) == on_path(
                pages,
                next,
                key,
                (fuel - 1) as nat,
                q,
            ));
        }
    }
}

/// A search reads only the pages on its path: pages that agree on them
/// search alike.
pub proof fn lemma_descend_agree(a: Seq<Seq<u8>>, b: Seq<Seq<u8>>, pid: int, key: Seq<u8>, fuel: nat)
    requires
        descend(a, pid, key, fuel) is Some,
        a.len() <= b.len(),
        forall|q: int| on_path(a, pid, key, fuel, q) ==> #[trigger] b[q] == a[q],
    ensures
        descend(b, pid, key, fuel) == descend(a, pid, key, fuel),
        lookup_from(b, pid, key, fuel) == lookup_from(a, pid, key, fuel),
        forall|q: int| on_path(b, pid, key, fuel, q) == on_path(a, pid, key, fuel, q),
    decreases fuel,
{
    assert(on_path(a, pid, key, fuel, pid));
    assert(b[pid] == a[pid]);
    if ordered_node(a, pid) && !is_leaf_page(a[pid]) {
        let next = next_on_path(a[pid], key);
        assert forall|q: int| on_path(a, next, key, (fuel - 1) as nat, q) implies #[trigger] b[q] == a[q] by {
            assert(on_path(a, pid, key, fuel, q));
        }
        lemma_descend_agree(a, b, next, key, (fuel - 1) as nat);
        assert forall|q: int| #[trigger]
            on_path(b, pid, key, fuel, q) == on_path(a, pid, key, fuel, q) by {
            assert(on_path(b, next, key, (fuel - 1) as nat, q) == on_path(
                a,
                next,
                key,
                (fuel - 1) as nat,
                q,
            ));
        }
    }
    lemma_descend_leaf(a, pid, key, fuel);
    let p = descend(a, pid, key, fuel)->0;
    lemma_descend_on_path(a, pid, key, fuel);
    assert(b[p] == a[p]);
}

/// The leaf a search ends at is on its path.
pub proof fn lemma_descend_on_path(pages: Seq<Seq<u8>>, pid: int, key: Seq<u8>, fuel: nat)
    requires
        descend(pages, pid, key, fuel) is Some,
    ensures
        on_path(pages, pid, key, fuel, descend(pages, pid, key, fuel)->0),
    decreases fuel,
{
    if ordered_node(pages, pid) && !is_leaf_page(pages[pid]) {
        lemma_descend_on_path(pages, next_on_path(pages[pid], key), key, (fuel - 1) as nat);
    }
}

/// An ordered search path is a search that ends.
pub proof fn lemma_path_ranged_descends(pages: Seq<Seq<u8>>, pid: int, key: Seq<u8>, lo: Option<Seq<u8>>, hi: Option<Seq<u8>>, fuel: nat)
    requires
        path_ranged(pages, pid, key, lo, hi, fuel),
    ensures
        descend(pages, pid, key, fuel) is Some,
    decreases fuel,
{
    let s = pages[pid];
    if !is_leaf_page(s) {
        let c = child_index(s, key);
        lemma_path_ranged_descends(
            pages,
            next_on_path(s, key),
            key,
            child_lo(s, c, lo),
            child_hi(s, c, hi),
            (fuel - 1) as nat,
        );
    }
}

/// An ordered search path stays ordered in pages that agree on it.
pub proof fn lemma_path_ranged_agree(a: Seq<Seq<u8>>, b: Seq<Seq<u8>>, pid: int, key: Seq<u8>, lo: Option<Seq<u8>>, hi: Option<Seq<u8>>, fuel: nat)
    requires
        path_ranged(a, pid, key, lo, hi, fuel),
        a.len() <= b.len(),
        forall|q: int| #[trigger] on_path(a, pid, key, fuel, q) ==> b[q] == a[q],
    ensures
        path_ranged(b, pid, key, lo, hi, fuel),
    decreases fuel,
{
    assert(on_path(a, pid, key, fuel, pid));
    let s = a[pid];
    if !is_leaf_page(s) {
        let next = next_on_path(s, key);
        let c = child_index(s, key);
        let f1 = (fuel - 1) as nat;
        assert forall|q: int| #[trigger] on_path(a, next, key, f1, q) implies b[q] == a[q] by {
            assert(on_path(a, pid, key, fuel, q));
        }
        lemma_path_ranged_agree(a, b, next, key, child_lo(s, c, lo), child_hi(s, c, hi), f1);
        lemma_path_ranged_descends(a, next, key, child_lo(s, c, lo), child_hi(s, c, hi), f1);
        lemma_descend_agree(a, b, next, key, f1);
        assert(on_path(b, next, key, f1, pid) == on_path(a, next, key, f1, pid));
    }
}

/// An ordered search path stays ordered with more fuel.
pub proof fn lemma_path_ranged_more_fuel(a: Seq<Seq<u8>>, pid: int, key: Seq<u8>, lo: Option<Seq<u8>>, hi: Option<Seq<u8>>, fuel: nat, more: nat)
    requires
        path_ranged(a, pid, key, lo, hi, fuel),
        fuel <= more,
    ensures
        path_ranged(a, pid, key, lo, hi, more),
    decreases fuel,
{
    let s = a[pid];
    if !is_leaf_page(s) {
        let next = next_on_path(s, key);
        let c = child_index(s, key);
        let f1 = (fuel - 1) as nat;
        let m1 = (more - 1) as nat;
        lemma_path_ranged_more_fuel(a, next, key, child_lo(s, c, lo), child_hi(s, c, hi), f1, m1);
        lemma_path_ranged_descends(a, next, key, child_lo(s, c, lo), child_hi(s, c, hi), f1);
        lemma_descend_more_fuel(a, next, key, f1, m1);
        assert(on_path(a, next, key, m1, pid) == on_path(a, next, key, f1, pid));
    }
}

/// Below node `pid`, once the search paths for `key` and `k` part, the
/// path for `k` meets no page of the path for `key`, as in every tree
/// whose subtrees share no page.
pub open spec fn apart(pages: Seq<Seq<u8>>, pid: int, key: Seq<u8>, k: Seq<u8>, fuel: nat) -> bool
    decreases fuel,
{
    let s = pages[pid];
    if is_leaf_page(s) || fuel == 0 {
        true
    } else if child_index(s, key) == child_index(s, k) {
        apart(pages, next_on_path(s, key), key, k, (fuel - 1) as nat)
    } else {
        forall|q: int|
            #[trigger] on_path(pages, next_on_path(s, k), k, (fuel - 1) as nat, q) ==> !on_path(
                pages,
                next_on_path(s, key),
                key,
                (fuel - 1) as nat,
                q,
            )
    }
}

/// Some position fits `k` among the ordered keys of node `s`: the one
/// after the keys at or below it.
pub proof fn lemma_child_bound_exists(s: Seq<u8>, k: Seq<u8>)
    requires
        keys_sorted(node_keys(s)),
    ensures
        child_bound(s, k, child_index(s, k)),
{
    let n = slot_count_of(s) as int;
    let c = lemma_first_above(s, k, n);
    assert(child_bound(s, k, c)) by {
        assert forall|i: int| c <= i < n implies key_lt(k, #[trigger] node_key(s, i)) by {
            if i > c {
                assert(key_lt(node_keys(s)[c], node_keys(s)[i]));
                lemma_key_lt_transitive(k, node_key(s, c), node_key(s, i));
            }
        }
    }
}

/// The first of the first `m` keys of `s` above `k`, or `m`: every key
/// before it is at or below `k`.
proof fn lemma_first_above(s: Seq<u8>, k: Seq<u8>, m: int) -> (c: int)
    requires
        0 <= m <= slot_count_of(s),
    ensures
        0 <= c <= m,
        forall|i: int| 0 <= i < c ==> key_le(#[trigger] node_key(s, i), k),
        c < m ==> key_lt(k, node_key(s, c)),
    decreases m,
{
    if m == 0 {
        0
    } else {
        let c0 = lemma_first_above(s, k, m - 1);
        if c0 < m - 1 {
            c0
        } else {
            lemma_key_lt_total(k, node_key(s, m - 1));
            if key_lt(k, node_key(s, m - 1)) {
                m - 1
            } else {
                m
            }
        }
    }
}

/// Every page on the path of a search that ends is an ordered node.
pub proof fn lemma_on_path_ordered(pages: Seq<Seq<u8>>, pid: int, key: Seq<u8>, fuel: nat, q: int)
    requires
        descend(pages, pid, key, fuel) is Some,
        on_path(pages, pid, key, fuel, q),
    ensures
        ordered_node(pages, q),
    decreases fuel,
{
    if q != pid {
        lemma_on_path_ordered(pages, next_on_path(pages[pid], key), key, (fuel - 1) as nat, q);
    }
}

/// Page `t` is an ordered leaf that holds `key` with `rid`.
pub open spec fn leaf_lands(pages: Seq<Seq<u8>>, t: int, key: Seq<u8>, rid: RecordId) -> bool {
    &&& ordered_node(pages, t)
    &&& is_leaf_page(pages[t])
    &&& leaf_find(pages[t], key) == Some(rid)
}

/// Page `t` is an ordered internal node that sends `key` on to `next`.
pub open spec fn routes(pages: Seq<Seq<u8>>, t: int, key: Seq<u8>, next: int) -> bool {
    &&& ordered_node(pages, t)
    &&& !is_leaf_page(pages[t])
    &&& next_on_path(pages[t], key) == next
}

/// `i` is the first slot of node `s` whose key is at or past `key`.
pub open spec fn start_bound(s: Seq<u8>, key: Seq<u8>, i: int) -> bool {
    &&& 0 <= i <= slot_count_of(s)
    &&& forall|j: int| 0 <= j < i ==> key_lt(#[trigger] node_key(s, j), key)
    &&& forall|j: int| i <= j < slot_count_of(s) ==> key_le(key, #[trigger] node_key(s, j))
}

/// The first slot of node `s` whose key is at or past `key`.
pub open spec fn start_slot(s: Seq<u8>, key: Seq<u8>) -> int {
    choose|i: int| start_bound(s, key, i)
}

/// At most one slot is the first at or past a key.
pub proof fn lemma_start_bound_unique(s: Seq<u8>, key: Seq<u8>, i: int)
    requires
        start_bound(s, key, i),
    ensures
        start_slot(s, key) == i,
{
    let d = start_slot(s, key);
    assert(start_bound(s, key, d));
    if d < i {
        assert(key_lt(node_key(s, d), key));
        lemma_key_lt_asymmetric(key, node_key(s, d));
        lemma_key_lt_irreflexive(key);
    } else if i < d {
        assert(key_lt(node_key(s, i), key));
        lemma_key_lt_asymmetric(key, node_key(s, i));
        lemma_key_lt_irreflexive(key);
    }
}

/// The pairs that a walk along the leaf chain yields from slot `i` of leaf
/// `p` on, up to the first key at or past `end`; `None` when the walk
/// reaches a page that is no leaf, or follows more than `fuel` links.
pub open spec fn chain_scan(pages: Seq<Seq<u8>>, p: int, i: int, end: Seq<u8>, fuel: nat) -> Option<
    Seq<(Seq<u8>, RecordId)>,
>
    decreases fuel, slot_count_of(pages[p]) - i,
{
    let s = pages[p];
    if 0 <= i < slot_count_of(s) {
        if key_lt(node_key(s, i), end) {
            match chain_scan(pages, p, i + 1, end, fuel) {
                Some(rest) => Some(seq![(node_key(s, i), leaf_rid(s, i))] + rest),
                None => None,
            }
        } else {
            Some(Seq::empty())
        }
    } else if link_of(s) == NO_PAGE {
        Some(Seq::empty())
    } else if fuel == 0 || !leaf_page(pages, link_of(s) as int) {
        None
    } else {
        chain_scan(pages, link_of(s) as int, 0, end, (fuel - 1) as nat)
    }
}

/// Pairs of keys and record ids, the keys by their bytes.
pub open spec fn pairs_view(items: Seq<(Vec<u8>, RecordId)>) -> Seq<(Seq<u8>, RecordId)> {
    Seq::new(items.len(), |i: int| (items[i].0@, items[i].1))
}

/// `done` followed by what the rest of a walk yields, or `None` with it.
pub open spec fn then_scan(done: Seq<(Seq<u8>, RecordId)>, rest: Option<Seq<(Seq<u8>, RecordId)>>) -> Option<
    Seq<(Seq<u8>, RecordId)>,
> {
    match rest {
        Some(r) => Some(done + r),
        None => None,
    }
}

/// What the pool must be for the tree: ready for the heap as well, a valid
/// meta page, and at least one frame.
pub open spec fn tree_ready(pool: &BufferPool) -> bool {
    &&& heap_ready(pool)
    &&& pool.frame_count() >= 1
    &&& meta_valid(pool.pages()[0])
}

/// From `a` to `b` only node pages changed, pages may have been added, and
/// the meta page kept everything but the root.
pub open spec fn nodes_frame(a: Seq<Seq<u8>>, b: Seq<Seq<u8>>) -> bool {
    &&& 1 <= a.len() <= b.len()
    &&& meta_valid(b[0]) == meta_valid(a[0])
    &&& meta_heap_tail(b[0]) == meta_heap_tail(a[0])
    &&& meta_next_timestamp(b[0]) == meta_next_timestamp(a[0])
    &&& forall|p: int| 1 <= p < a.len() && !node_ok(#[trigger] a[p]) ==> b[p] == a[p]
}

/// From `a` to `b` no leaf changed.
pub open spec fn leaves_kept(a: Seq<Seq<u8>>, b: Seq<Seq<u8>>) -> bool {
    &&& a.len() <= b.len()
    &&& forall|p: int|
        1 <= p < a.len() && node_ok(#[trigger] a[p]) && is_leaf_page(a[p]) ==> b[p] == a[p]
}

pub proof fn lemma_nodes_frame_refl(a: Seq<Seq<u8>>)
    requires
        a.len() >= 1,
    ensures
        nodes_frame(a, a),
        leaves_kept(a, a),
{
}

pub proof fn lemma_frames_trans(a: Seq<Seq<u8>>, b: Seq<Seq<u8>>, c: Seq<Seq<u8>>)
    ensures
        nodes_frame(a, b) && nodes_frame(b, c) ==> nodes_frame(a, c),
        leaves_kept(a, b) && leaves_kept(b, c) ==> leaves_kept(a, c),
{
    if nodes_frame(a, b) && nodes_frame(b, c) {
        assert forall|p: int| 1 <= p < a.len() && !node_ok(#[trigger] a[p]) implies c[p] == a[p] by {
            assert(b[p] == a[p]);
        }
    }
    if leaves_kept(a, b) && leaves_kept(b, c) {
        assert forall|p: int|
            1 <= p < a.len() && node_ok(#[trigger] a[p]) && is_leaf_page(a[p]) implies c[p]
            == a[p] by {
            assert(b[p] == a[p]);
        }
    }
}

/// Writing a page that was a node, or is new, keeps the frame.
pub proof fn lemma_nodes_frame_update(a: Seq<Seq<u8>>, b: Seq<Seq<u8>>, q: int, x: Seq<u8>)
    requires
        nodes_frame(a, b),
        1 <= q < b.len(),
        q >= a.len() || node_ok(a[q]),
    ensures
        nodes_frame(a, b.update(q, x)),
{
    let c = b.update(q, x);
    assert forall|p: int| 1 <= p < a.len() && !node_ok(#[trigger] a[p]) implies c[p] == a[p] by {
        assert(p != q);
    }
}

/// Writing a page that was no leaf, or is new, keeps the leaves.
pub proof fn lemma_leaves_kept_update(a: Seq<Seq<u8>>, b: Seq<Seq<u8>>, q: int, x: Seq<u8>)
    requires
        leaves_kept(a, b),
        0 <= q < b.len(),
        q == 0 || q >= a.len() || !(node_ok(a[q]) && is_leaf_page(a[q])),
    ensures
        leaves_kept(a, b.update(q, x)),
{
    let c = b.update(q, x);
    assert forall|p: int|
        1 <= p < a.len() && node_ok(#[trigger] a[p]) && is_leaf_page(a[p]) implies c[p]
        == a[p] by {
        assert(p != q);
    }
}

/// Adding a page keeps both frames.
pub proof fn lemma_frames_push(a: Seq<Seq<u8>>, b: Seq<Seq<u8>>, x: Seq<u8>)
    ensures
        nodes_frame(a, b) ==> nodes_frame(a, b.push(x)),
        leaves_kept(a, b) ==> leaves_kept(a, b.push(x)),
{
    let c = b.push(x);
    if nodes_frame(a, b) {
        assert forall|p: int| 1 <= p < a.len() && !node_ok(#[trigger] a[p]) implies c[p] == a[p] by {
            assert(c[p] == b[p]);
        }
    }
    if leaves_kept(a, b) {
        assert forall|p: int|
            1 <= p < a.len() && node_ok(#[trigger] a[p]) && is_leaf_page(a[p]) implies c[p]
            == a[p] by {
            assert(c[p] == b[p]);
        }
    }
}

/// An entry of a leaf that did not change is still there.
pub proof fn lemma_has_entry_kept(a: Seq<Seq<u8>>, b: Seq<Seq<u8>>, key: Seq<u8>, rid: RecordId)
    requires
        has_entry(a, key, rid),
        leaves_kept(a, b),
    ensures
        has_entry(b, key, rid),
{
    let p = choose|p: int| #[trigger] leaf_has(a, p, key, rid);
    assert(b[p] == a[p]);
    assert(leaf_has(b, p, key, rid));
}

/// Frame `f` is pinned once and no other frame is pinned.
pub open spec fn pinned_alone(pool: &BufferPool, f: int) -> bool {
    &&& 0 <= f < pool.frame_count()
    &&& pool.frame_pin(f) == 1
    &&& forall|g: int| 0 <= g < pool.frame_count() && g != f ==> #[trigger] pool.frame_pin(g) == 0
}

/// Page `p` is a leaf of the tree.
pub open spec fn leaf_page(pages: Seq<Seq<u8>>, p: int) -> bool {
    &&& 1 <= p < pages.len()
    &&& node_ok(pages[p])
    &&& is_leaf_page(pages[p])
}

/// The page that frame `f` holds, 0 for none.
pub open spec fn frame_pid(pool: &BufferPool, f: int) -> int {
    match pool.frame_of(f) {
        Some(p) => p.0 as int,
        None => 0,
    }
}

/// Frame `f` holds leaf `p` of `pages`.
pub open spec fn holds_leaf(pool: &BufferPool, f: int, pages: Seq<Seq<u8>>) -> bool {
    &&& pool.frame_of(f) is Some
    &&& leaf_page(pages, frame_pid(pool, f))
    &&& pool.frame_page(f) == pages[frame_pid(pool, f)]
}

/// The errors that a damaged tree can lead to.
pub open spec fn corrupt_error(e: Error) -> bool {
    e is CorruptPage || e is PageOutOfRange
}

/// Pins page `page_id` as a node of the tree. The meta page, and a page
/// that is not a well-formed leaf or internal node, are refused as corrupt.
pub fn fetch_node(pool: &mut BufferPool, page_id: PageId) -> (r: Result<FrameId>)
    requires
        heap_ready(old(pool)),
        old(pool).frame_count() >= 1,
    ensures
        final(pool).wf(),
        final(pool).pages() == old(pool).pages(),
        final(pool).frame_count() == old(pool).frame_count(),
        match r {
            Ok(f) => {
                &&& f < old(pool).frame_count()
                &&& 1 <= page_id.0 < old(pool).pages().len()
                &&& node_ok(old(pool).pages()[page_id.0 as int])
                &&& final(pool).frame_of(f as int) == Some(page_id)
                &&& final(pool).frame_page(f as int) == old(pool).pages()[page_id.0 as int]
                &&& pinned_alone(&*final(pool), f as int)
            },
            Err(Error::CorruptPage(x)) => {
                &&& x == page_id.0
                &&& page_id.0 == 0 || (page_id.0 < old(pool).pages().len() && !node_ok(
                    old(pool).pages()[page_id.0 as int],
                ))
                &&& final(pool).all_unpinned()
            },
            Err(Error::PageOutOfRange { requested, page_count }) => {
                &&& page_id.0 >= old(pool).pages().len()
                &&& requested == page_id.0
                &&& page_count == old(pool).pages().len()
                &&& final(pool).all_unpinned()
            },
            _ => false,
        },
{
    if page_id.0 == META_PAGE {
        return Err(Error::CorruptPage(page_id.0));
    }
    proof {
        old(pool).lemma_unpinned_has_free_frame();
        old(pool).lemma_unpinned_pin(page_id.0);
    }
    let frame = match pool.fetch_page(page_id) {
        Ok(f) => f,
        Err(e) => return Err(e),
    };
    proof {
        pool.lemma_frame_view(frame as int);
        assert(page_ok(old(pool).pages()[page_id.0 as int]));
    }
    let ok = pool.page(frame).is_initialized() && pool.page(frame).check_node();
    if !ok {
        let _ = pool.unpin(frame);
        return Err(Error::CorruptPage(page_id.0));
    }
    Ok(frame)
}

/// Drops the one pin of a frame pinned alone, so nothing is pinned.
pub fn release(pool: &mut BufferPool, frame: FrameId)
    requires
        old(pool).wf(),
        pinned_alone(&*old(pool), frame as int),
    ensures
        final(pool).wf(),
        final(pool).all_unpinned(),
        final(pool).pages() == old(pool).pages(),
        final(pool).disk_view() == old(pool).disk_view(),
        final(pool).frame_count() == old(pool).frame_count(),
{
    let _ = pool.unpin(frame);
}

/// The two pages of a fresh file: the meta page pointing at page 1 as the
/// root, with no heap and timestamps from the first, and an empty root leaf.
pub open spec fn fresh_pages(pages: Seq<Seq<u8>>) -> bool {
    &&& pages.len() == 2
    &&& meta_valid(pages[0])
    &&& meta_root(pages[0]) == 1
    &&& meta_heap_tail(pages[0]) == 0
    &&& meta_next_timestamp(pages[0]) == FIRST_TIMESTAMP
    &&& node_ok(pages[1])
    &&& is_leaf_page(pages[1])
    &&& slot_count_of(pages[1]) == 0
    &&& link_of(pages[1]) == NO_PAGE
}

pub struct BTree {
    pub pool: BufferPool,
}

impl BTree {
    pub open spec fn wf(&self) -> bool {
        tree_ready(&self.pool)
    }

    /// The pages of the database.
    pub open spec fn pages(&self) -> Seq<Seq<u8>> {
        self.pool.pages()
    }

    /// Opens the tree stored in `disk` with a pool of `frame_count` frames. A
    /// fresh file gets a meta page and an empty root leaf, both written to the
    /// disk before this returns; an existing file must start with our meta
    /// page, and its other pages must be slotted pages or zeroed.
    pub fn open(disk: DiskManager, frame_count: usize) -> (r: Result<BTree>)
        requires
            disk@.len() + 2 < usize::MAX,
        ensures
            match r {
                Ok(t) => {
                    &&& t.wf()
                    &&& t.pool.frame_count() == frame_count
                    &&& disk@.len() == 0 ==> fresh_pages(t.pages()) && t.pool.disk_view()
                        == t.pages() && frame_count >= 2
                    &&& disk@.len() > 0 ==> t.pages() == disk@
                },
                Err(Error::BufferPoolFull) => frame_count == 0 || (frame_count == 1
                    && disk@.len() == 0),
                Err(Error::BadMetaPage) => frame_count > 0 && disk@.len() > 0 && !meta_valid(
                    disk@[0],
                ),
                Err(Error::CorruptPage(p)) => {
                    &&& frame_count > 0
                    &&& meta_valid(disk@[0])
                    &&& 1 <= p < disk@.len()
                    &&& !page_ok(disk@[p as int])
                    &&& forall|q: int| 1 <= q < p ==> page_ok(#[trigger] disk@[q])
                },
                _ => false,
            },
    {
        if frame_count == 0 {
            return Err(Error::BufferPoolFull);
        }
        proof {
            disk.lemma_pages_wf();
        }
        let count = match disk.page_count() {
            Ok(c) => c,
            Err(e) => return Err(e),
        };
        if count > 0 {
            let meta = match disk.read_page(PageId(META_PAGE)) {
                Ok(m) => m,
                Err(e) => return Err(e),
            };
            if !meta.is_meta() {
                return Err(Error::BadMetaPage);
            }
            let mut p: u64 = 1;
            while p < count
                invariant
                    count == disk@.len(),
                    1 <= p <= count,
                    meta_valid(disk@[0]),
                    frame_count > 0,
                    forall|q: int| 1 <= q < p ==> page_ok(#[trigger] disk@[q]),
                decreases count - p,
            {
                let page = match disk.read_page(PageId(p)) {
                    Ok(x) => x,
                    Err(e) => return Err(e),
                };
                if !(page.check_slotted() || page.is_zeroed()) {
                    return Err(Error::CorruptPage(p));
                }
                p = p + 1;
            }
            let pool = BufferPool::open(disk, frame_count);
            return Ok(BTree { pool });
        }
        let mut pool = BufferPool::open(disk, frame_count);
        proof {
            pool.lemma_unpinned_has_free_frame();
        }
        let (_meta_id, meta_frame) = match pool.new_page() {
            Ok(x) => x,
            Err(e) => return Err(e),
        };
        proof {
            if frame_count >= 2 {
                let g: FrameId = if meta_frame == 0 {
                    1
                } else {
                    0
                };
                pool.lemma_unpinned_frame_free(g);
            }
        }
        let (root_id, root_frame) = match pool.new_page() {
            Ok(x) => x,
            Err(e) => return Err(e),
        };
        pool.page_mut(root_frame).init_leaf();
        pool.page_mut(meta_frame).init_meta(root_id);
        let _ = pool.unpin(root_frame);
        let _ = pool.unpin(meta_frame);
        let _ = pool.flush_all();
        let tree = BTree { pool };
        proof {
            let pages = tree.pages();
            assert(pages_ok(pages)) by {
                assert forall|q: int| 1 <= q < pages.len() implies page_ok(#[trigger] pages[q]) by {
                    assert(q == 1);
                }
            }
        }
        Ok(tree)
    }

    /// Pins the leaf that `key` leads to from the root.
    fn find_leaf(&mut self, key: &[u8]) -> (r: Result<FrameId>)
        requires
            old(self).wf(),
        ensures
            final(self).pages() == old(self).pages(),
            final(self).pool.wf(),
            final(self).pool.frame_count() == old(self).pool.frame_count(),
            match r {
                Ok(f) => pinned_alone(&final(self).pool, f as int) && holds_leaf(
                    &final(self).pool,
                    f as int,
                    old(self).pages(),
                ),
                Err(e) => final(self).wf() && corrupt_error(e),
            },
            descend(old(self).pages(), meta_root(old(self).pages()[0]) as int, key@, old(self).pages().len())
                matches Some(p) ==> r matches Ok(f) && frame_pid(&final(self).pool, f as int) == p,
    {
        let ghost pages = self.pages();
        let ghost target = descend(pages, meta_root(pages[0]) as int, key@, pages.len());
        let mut page_id = match self.root() {
            Ok(p) => p,
            Err(e) => return Err(e),
        };
        let mut fuel: u64 = match self.pool.page_count() {
            Ok(c) => c,
            Err(e) => return Err(e),
        };
        loop
            invariant
                self.wf(),
                self.pages() == old(self).pages(),
                pages == old(self).pages(),
                self.pool.frame_count() == old(self).pool.frame_count(),
                target == descend(pages, meta_root(pages[0]) as int, key@, pages.len()),
                target is Some ==> descend(pages, page_id.0 as int, key@, fuel as nat) == target,
            decreases fuel,
        {
            let frame = match fetch_node(&mut self.pool, page_id) {
                Ok(f) => f,
                Err(e) => return Err(e),
            };
            if self.pool.page(frame).is_leaf() {
                return Ok(frame);
            }
            let child_slot = match self.pool.page(frame).child_slot_for_key(key) {
                Ok(c) => c,
                Err(e) => {
                    release(&mut self.pool, frame);
                    return Err(e);
                },
            };
            let child = match self.pool.page(frame).child_at(child_slot) {
                Ok(c) => c,
                Err(e) => {
                    release(&mut self.pool, frame);
                    return Err(e);
                },
            };
            proof {
                if target is Some {
                    let s = pages[page_id.0 as int];
                    lemma_child_bound_unique(s, key@, child_slot as int);
                }
            }
            release(&mut self.pool, frame);
            // a descent longer than the file has pages went round a cycle
            if fuel == 0 {
                return Err(Error::CorruptPage(page_id.0));
            }
            fuel = fuel - 1;
            page_id = child;
        }
    }

    /// The record id stored under `key`, if the leaf that `key` leads to
    /// holds it.
    pub fn lookup(&mut self, key: &[u8]) -> (r: Result<Option<RecordId>>)
        requires
            old(self).wf(),
        ensures
            final(self).wf(),
            final(self).pages() == old(self).pages(),
            final(self).pool.frame_count() == old(self).pool.frame_count(),
            match r {
                Ok(Some(rid)) => has_entry(old(self).pages(), key@, rid),
                Ok(None) => true,
                Err(e) => corrupt_error(e),
            },
            tree_lookup(old(self).pages(), key@) matches Some(found) ==> r == Ok::<
                Option<RecordId>,
                Error,
            >(found),
    {
        let frame = match self.find_leaf(key) {
            Ok(f) => f,
            Err(e) => return Err(e),
        };
        let ghost p = frame_pid(&self.pool, frame as int);
        let ghost pages = self.pages();
        let (found, slot) = match self.pool.page(frame).search_slot(key) {
            Ok(x) => x,
            Err(e) => {
                release(&mut self.pool, frame);
                return Err(e);
            },
        };
        let record = if found {
            match self.pool.page(frame).leaf_record_id(slot) {
                Ok(rid) => Some(rid),
                Err(e) => {
                    release(&mut self.pool, frame);
                    return Err(e);
                },
            }
        } else {
            None
        };
        release(&mut self.pool, frame);
        proof {
            if let Some(rid) = record {
                assert(node_key(pages[p], slot as int) == key@);
                assert(leaf_has(pages, p, key@, rid));
            }
            if tree_lookup(pages, key@) is Some {
                lemma_descend_leaf(pages, meta_root(pages[0]) as int, key@, pages.len());
                if found {
                    lemma_leaf_find_at(pages[p], key@, slot as int);
                } else {
                    assert forall|i: int| 0 <= i < slot_count_of(pages[p]) implies #[trigger] node_key(pages[p], i) != key@ by {
                        lemma_key_lt_irreflexive(key@);
                    }
                }
            }
        }
        Ok(record)
    }

    /// Every pair from the leaf that `start` leads to on, in leaf-chain
    /// order, up to but not including the first key at or past `end`.
    pub fn scan(&mut self, start: &[u8], end: &[u8]) -> (r: Result<Vec<(Vec<u8>, RecordId)>>)
        requires
            old(self).wf(),
        ensures
            final(self).wf(),
            final(self).pages() == old(self).pages(),
            final(self).pool.frame_count() == old(self).pool.frame_count(),
            match r {
                Ok(items) => forall|i: int|
                    0 <= i < items@.len() ==> has_entry(
                        old(self).pages(),
                        (#[trigger] items@[i]).0@,
                        items@[i].1,
                    ) && key_lt(items@[i].0@, end@),
                Err(e) => corrupt_error(e),
            },
            descend(old(self).pages(), meta_root(old(self).pages()[0]) as int, start@, old(self).pages().len())
                matches Some(leaf) ==> chain_scan(
                old(self).pages(),
                leaf,
                start_slot(old(self).pages()[leaf], start@),
                end@,
                old(self).pages().len(),
            ) == match r {
                Ok(items) => Some(pairs_view(items@)),
                Err(_) => None,
            },
    {
        let ghost pages = self.pages();
        let mut frame = match self.find_leaf(start) {
            Ok(f) => f,
            Err(e) => return Err(e),
        };
        let mut slot: u16 = match self.pool.page(frame).search_slot(start) {
            Ok((found, s)) => {
                proof {
                    let q = frame_pid(&self.pool, frame as int);
                    let t = pages[q];
                    if keys_sorted(node_keys(t)) {
                        assert forall|j: int| s <= j < slot_count_of(t) implies key_le(start@, #[trigger] node_key(t, j)) by {
                            if found && j > s {
                                assert(key_lt(node_keys(t)[s as int], node_keys(t)[j]));
                            }
                        }
                        lemma_start_bound_unique(t, start@, s as int);
                    }
                }
                s
            },
            Err(e) => {
                release(&mut self.pool, frame);
                return Err(e);
            },
        };
        let mut out: Vec<(Vec<u8>, RecordId)> = Vec::new();
        let mut fuel: u64 = match self.pool.page_count() {
            Ok(c) => c,
            Err(e) => {
                release(&mut self.pool, frame);
                return Err(e);
            },
        };
        let ghost whole = chain_scan(pages, frame_pid(&self.pool, frame as int), slot as int, end@, fuel as nat);
        proof {
            assert(pairs_view(out@) =~= Seq::<(Seq<u8>, RecordId)>::empty());
            assert(then_scan(pairs_view(out@), whole) =~= whole);
            if descend(pages, meta_root(pages[0]) as int, start@, pages.len()) is Some {
                lemma_descend_leaf(pages, meta_root(pages[0]) as int, start@, pages.len());
            }
        }
        loop
            invariant_except_break
                pinned_alone(&self.pool, frame as int),
                holds_leaf(&self.pool, frame as int, pages),
                slot <= slot_count_of(pages[frame_pid(&self.pool, frame as int)]),
                whole == then_scan(
                    pairs_view(out@),
                    chain_scan(pages, frame_pid(&self.pool, frame as int), slot as int, end@, fuel as nat),
                ),
            invariant
                self.pool.wf(),
                self.pages() == pages,
                pages == old(self).pages(),
                tree_ready(&old(self).pool),
                self.pool.frame_count() == old(self).pool.frame_count(),
                descend(pages, meta_root(pages[0]) as int, start@, pages.len()) matches Some(leaf) ==> whole
                    == chain_scan(pages, leaf, start_slot(pages[leaf], start@), end@, pages.len()),
                forall|i: int|
                    0 <= i < out@.len() ==> has_entry(pages, (#[trigger] out@[i]).0@, out@[i].1)
                        && key_lt(out@[i].0@, end@),
            ensures
                self.wf(),
                whole == Some(pairs_view(out@)),
            decreases fuel,
        {
            let ghost p = frame_pid(&self.pool, frame as int);
            let n = self.pool.page(frame).slot_count();
            while slot < n
                invariant
                    self.pool.wf(),
                    self.pages() == pages,
                    pages == old(self).pages(),
                    tree_ready(&old(self).pool),
                    self.pool.frame_count() == old(self).pool.frame_count(),
                    pinned_alone(&self.pool, frame as int),
                    holds_leaf(&self.pool, frame as int, pages),
                    p == frame_pid(&self.pool, frame as int),
                    n == slot_count_of(pages[p]),
                    slot <= n,
                    whole == then_scan(pairs_view(out@), chain_scan(pages, p, slot as int, end@, fuel as nat)),
                    descend(pages, meta_root(pages[0]) as int, start@, pages.len()) matches Some(leaf) ==> whole
                        == chain_scan(pages, leaf, start_slot(pages[leaf], start@), end@, pages.len()),
                    forall|i: int|
                        0 <= i < out@.len() ==> has_entry(pages, (#[trigger] out@[i]).0@, out@[i].1)
                            && key_lt(out@[i].0@, end@),
                decreases n - slot,
            {
                let key = match self.pool.page(frame).leaf_key(slot) {
                    Ok(k) => vstd::slice::slice_to_vec(k),
                    Err(e) => {
                        release(&mut self.pool, frame);
                        return Err(e);
                    },
                };
                if compare_keys(key.as_slice(), end) >= 0 {
                    release(&mut self.pool, frame);
                    proof {
                        assert(pairs_view(out@) + Seq::<(Seq<u8>, RecordId)>::empty() =~= pairs_view(out@));
                    }
                    return Ok(out);
                }
                let rid = match self.pool.page(frame).leaf_record_id(slot) {
                    Ok(r) => r,
                    Err(e) => {
                        release(&mut self.pool, frame);
                        return Err(e);
                    },
                };
                proof {
                    assert(node_key(pages[p], slot as int) == key@);
                    assert(leaf_has(pages, p, key@, rid));
                }
                let ghost before = pairs_view(out@);
                out.push((key, rid));
                proof {
                    assert(pairs_view(out@) =~= before.push((key@, rid)));
                    let rest = chain_scan(pages, p, slot + 1, end@, fuel as nat);
                    if rest is Some {
                        assert(before + (seq![(key@, rid)] + rest->0) =~= pairs_view(out@) + rest->0);
                    }
                }
                slot = slot + 1;
            }
            let next = self.pool.page(frame).next_leaf();
            release(&mut self.pool, frame);
            let page_id = match next {
                Some(page_id) => page_id,
                None => {
                    proof {
                        assert(pairs_view(out@) + Seq::<(Seq<u8>, RecordId)>::empty() =~= pairs_view(out@));
                    }
                    break;
                },
            };
            // a chain longer than the file has pages went round a cycle
            if fuel == 0 {
                return Err(Error::CorruptPage(page_id.0));
            }
            fuel = fuel - 1;
            frame = match fetch_node(&mut self.pool, page_id) {
                Ok(f) => f,
                Err(e) => return Err(e),
            };
            if !self.pool.page(frame).is_leaf() {
                release(&mut self.pool, frame);
                return Err(Error::CorruptPage(page_id.0));
            }
            slot = 0;
        }
        Ok(out)
    }

    /// The root page id, as the meta page records it.
    pub fn root(&mut self) -> (r: Result<PageId>)
        requires
            old(self).wf(),
        ensures
            final(self).wf(),
            final(self).pages() == old(self).pages(),
            final(self).pool.frame_count() == old(self).pool.frame_count(),
            r == Ok::<PageId, Error>(PageId(meta_root(old(self).pages()[0]))),
    {
        proof {
            self.pool.lemma_unpinned_has_free_frame();
            self.pool.lemma_unpinned_pin(META_PAGE);
        }
        let frame = match self.pool.fetch_page(PageId(META_PAGE)) {
            Ok(f) => f,
            Err(e) => {
                assert(false);
                return Err(e);
            },
        };
        let root = self.pool.page(frame).root_page_id();
        release(&mut self.pool, frame);
        Ok(root)
    }

    /// Points the meta page at a new root.
    pub fn set_root(&mut self, root: PageId) -> (r: Result<()>)
        requires
            old(self).wf(),
        ensures
            r is Ok,
            final(self).wf(),
            final(self).pool.frame_count() == old(self).pool.frame_count(),
            final(self).pages() == old(self).pages().update(
                0,
                splice(old(self).pages()[0], OFF_ROOT as int, le64(root.0)),
            ),
            meta_root(final(self).pages()[0]) == root.0,
            nodes_frame(old(self).pages(), final(self).pages()),
            leaves_kept(old(self).pages(), final(self).pages()),
    {
        proof {
            self.pool.lemma_unpinned_has_free_frame();
            self.pool.lemma_unpinned_pin(META_PAGE);
        }
        let frame = match self.pool.fetch_page(PageId(META_PAGE)) {
            Ok(f) => f,
            Err(e) => {
                assert(false);
                return Err(e);
            },
        };
        self.pool.page_mut(frame).set_root_page_id(root);
        release(&mut self.pool, frame);
        proof {
            let a = old(self).pages();
            let b = self.pages();
            assert(pages_ok(b)) by {
                assert forall|p: int| 1 <= p < b.len() implies page_ok(#[trigger] b[p]) by {
                    assert(b[p] == a[p]);
                }
            }
            assert forall|p: int| 1 <= p < a.len() && !node_ok(#[trigger] a[p]) implies b[p]
                == a[p] by {}
            assert forall|p: int|
                1 <= p < a.len() && node_ok(#[trigger] a[p]) && is_leaf_page(a[p]) implies b[p]
                == a[p] by {}
        }
        Ok(())
    }
}

} // verus!
