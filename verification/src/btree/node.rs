//! Leaf and internal nodes of the B+tree, laid out as slotted pages.
//!
//! A leaf entry is a record id (10 bytes) followed by the key; the link of
//! a leaf is the next leaf, 0 for none. An internal entry is a child page id
//! (little-endian `u64`) followed by the key; child `i` holds the keys below
//! key `i`, and the link, the rightmost child, holds the keys from the last
//! key on.
use crate::btree::key::{compare_keys, key_le, key_lt, lemma_key_lt_transitive};
use crate::error::{Error, Result};
use crate::page::slotted::{free_bytes_of, frag_bytes_of, link_of, page_type_of, records_of, slot_count_of, slotted_wf, SlotId, HEADER_SIZE, SLOT_SIZE};
use crate::page::{group_bytes, le64, splice, le_u64, lemma_page_len, record_id_at, record_id_bytes, u64_bytes, Page, PageId, RecordId, PAGE_SIZE};
use vstd::prelude::*;

verus! {

broadcast use group_bytes, lemma_page_len;

pub const PAGE_TYPE_LEAF: u8 = 2;

pub const PAGE_TYPE_INTERNAL: u8 = 3;

pub const RID_SIZE: usize = 10;

pub const CHILD_SIZE: usize = 8;

/// Page 0 is the meta page, so as a link it means "none".
pub const NO_PAGE: u64 = 0;

pub open spec fn is_leaf_page(s: Seq<u8>) -> bool {
    page_type_of(s) == PAGE_TYPE_LEAF
}

pub open spec fn is_internal_page(s: Seq<u8>) -> bool {
    page_type_of(s) == PAGE_TYPE_INTERNAL
}

/// Bytes before the key in an entry of this node.
pub open spec fn entry_header(s: Seq<u8>) -> int {
    if is_leaf_page(s) {
        RID_SIZE as int
    } else {
        CHILD_SIZE as int
    }
}

/// The bytes of entry `i`.
pub open spec fn entry_bytes(s: Seq<u8>, i: int) -> Seq<u8> {
    records_of(s)[i]->0
}

/// A node: a slotted page of one of the two node types, whose every slot
/// holds an entry long enough for its header, and an internal node has a
/// rightmost child.
pub open spec fn node_ok(s: Seq<u8>) -> bool {
    &&& slotted_wf(s)
    &&& is_leaf_page(s) || is_internal_page(s)
    &&& forall|i: int|
        0 <= i < slot_count_of(s) ==> (#[trigger] records_of(s)[i]) is Some && records_of(
            s,
        )[i]->0.len() >= entry_header(s)
    &&& is_internal_page(s) ==> link_of(s) != NO_PAGE
}

/// The key of entry `i`.
pub open spec fn node_key(s: Seq<u8>, i: int) -> Seq<u8> {
    entry_bytes(s, i).subrange(entry_header(s), entry_bytes(s, i).len() as int)
}

/// The keys of the node in slot order.
pub open spec fn node_keys(s: Seq<u8>) -> Seq<Seq<u8>> {
    Seq::new(slot_count_of(s) as nat, |i: int| node_key(s, i))
}

/// The record id of leaf entry `i`.
pub open spec fn leaf_rid(s: Seq<u8>, i: int) -> RecordId {
    record_id_at(entry_bytes(s, i), 0)
}

/// The child page of internal entry `i`.
pub open spec fn entry_child(s: Seq<u8>, i: int) -> u64 {
    le_u64(entry_bytes(s, i), 0)
}

/// Child `i` of an internal node: entry `i`'s child, or the rightmost child
/// for `i` equal to the number of entries.
pub open spec fn child_at_spec(s: Seq<u8>, i: int) -> u64 {
    if i == slot_count_of(s) {
        link_of(s)
    } else {
        entry_child(s, i)
    }
}

/// Keys in strictly increasing order.
pub open spec fn keys_sorted(keys: Seq<Seq<u8>>) -> bool {
    forall|i: int, j: int| 0 <= i < j < keys.len() ==> key_lt(#[trigger] keys[i], #[trigger] keys[j])
}

/// The bytes of a leaf entry.
pub open spec fn leaf_entry(rid: RecordId, key: Seq<u8>) -> Seq<u8> {
    record_id_bytes(rid) + key
}

/// The bytes of an internal entry.
pub open spec fn internal_entry(child: u64, key: Seq<u8>) -> Seq<u8> {
    le64(child) + key
}

/// More than half of the usable space of the page is free or stranded.
pub open spec fn underfull(s: Seq<u8>) -> bool {
    free_bytes_of(s) + frag_bytes_of(s) > (PAGE_SIZE - HEADER_SIZE) / 2
}

/// Bytes that the first `m` entries take in a page, slot entries included.
pub open spec fn entries_size(entries: Seq<Vec<u8>>, m: int) -> int
    decreases m,
{
    if m <= 0 {
        0
    } else {
        entries_size(entries, m - 1) + entries[m - 1]@.len() + SLOT_SIZE
    }
}

/// Taking in more entries takes more bytes.
pub proof fn lemma_entries_size_grows(entries: Seq<Vec<u8>>, a: int, b: int)
    requires
        0 <= a <= b,
    ensures
        entries_size(entries, a) <= entries_size(entries, b),
    decreases b,
{
    if a < b {
        lemma_entries_size_grows(entries, a, b - 1);
    }
}

/// Entries of at most `cap` bytes each take at most `cap` and a slot entry
/// apiece.
pub proof fn lemma_entries_size_bound(entries: Seq<Vec<u8>>, m: int, cap: int)
    requires
        0 <= m <= entries.len(),
        forall|i: int| 0 <= i < m ==> (#[trigger] entries[i])@.len() <= cap,
    ensures
        entries_size(entries, m) <= m * (cap + SLOT_SIZE),
    decreases m,
{
    if m > 0 {
        lemma_entries_size_bound(entries, m - 1, cap);
        assert(entries[m - 1]@.len() <= cap);
        let w: int = cap + SLOT_SIZE;
        assert((m - 1) * w + w == m * w) by (nonlinear_arith);
        assert(entries_size(entries, m) == entries_size(entries, m - 1) + entries[m - 1]@.len() + SLOT_SIZE);
        assert(entries_size(entries, m - 1) <= (m - 1) * w);
        assert(entries_size(entries, m) <= m * w);
    } else {
        assert(entries_size(entries, m) == 0);
        assert(m * (cap + SLOT_SIZE) == 0);
    }
}

/// Converting rid and key into one blob to put in a slotted page.
pub fn encode_leaf_entry(rid: RecordId, key: &[u8]) -> (entry: Vec<u8>)
    requires
        RID_SIZE + key@.len() <= usize::MAX,
    ensures
        entry@ == leaf_entry(rid, key@),
{
    let mut entry: Vec<u8> = Vec::with_capacity(RID_SIZE + key.len());
    entry.extend_from_slice(rid.to_bytes().as_slice());
    entry.extend_from_slice(key);
    entry
}

/// Converting child and key into one blob to put in a slotted page.
pub fn encode_internal_entry(child: PageId, key: &[u8]) -> (entry: Vec<u8>)
    requires
        CHILD_SIZE + key@.len() <= usize::MAX,
    ensures
        entry@ == internal_entry(child.0, key@),
{
    let mut entry: Vec<u8> = Vec::with_capacity(CHILD_SIZE + key.len());
    entry.extend_from_slice(u64_bytes(child.0).as_slice());
    entry.extend_from_slice(key);
    entry
}

/// The child page of an encoded internal entry.
pub fn internal_entry_child(entry: &[u8]) -> (r: PageId)
    requires
        entry@.len() >= CHILD_SIZE,
    ensures
        r.0 == le_u64(entry@, 0),
{
    PageId(crate::page::read_le_u64(entry, 0))
}

/// The key of an encoded internal entry.
pub fn internal_entry_key(entry: &[u8]) -> (r: &[u8])
    requires
        entry@.len() >= CHILD_SIZE,
    ensures
        r@ == entry@.subrange(CHILD_SIZE as int, entry@.len() as int),
{
    vstd::slice::slice_subrange(entry, CHILD_SIZE, entry.len())
}

/// Points an encoded internal entry at another child.
pub fn set_entry_child(entry: &mut Vec<u8>, child: PageId)
    requires
        old(entry)@.len() >= CHILD_SIZE,
    ensures
        final(entry)@ == le64(child.0) + old(entry)@.subrange(
            CHILD_SIZE as int,
            old(entry)@.len() as int,
        ),
{
    let raw = u64_bytes(child.0);
    let mut i: usize = 0;
    while i < CHILD_SIZE
        invariant
            old(entry)@.len() >= CHILD_SIZE,
            entry@.len() == old(entry)@.len(),
            0 <= i <= CHILD_SIZE,
            raw@ == le64(child.0),
            forall|j: int| 0 <= j < i ==> #[trigger] entry@[j] == raw@[j],
            forall|j: int| CHILD_SIZE <= j < entry@.len() ==> #[trigger] entry@[j] == old(entry)@[j],
        decreases CHILD_SIZE - i,
    {
        entry.set(i, raw[i]);
        i = i + 1;
    }
    assert(entry@ =~= le64(child.0) + old(entry)@.subrange(
        CHILD_SIZE as int,
        old(entry)@.len() as int,
    ));
}

/// Where to split a run of entries that overflowed a page: the first index
/// at which the entries before it take at least half of the bytes, kept
/// between 1 and the last index so both sides get an entry.
pub fn split_point(entries: &Vec<Vec<u8>>) -> (mid: usize)
    requires
        entries@.len() >= 2,
        entries_size(entries@, entries@.len() as int) <= usize::MAX,
    ensures
        1 <= mid < entries@.len(),
        forall|m: int|
            1 <= m < mid ==> #[trigger] entries_size(entries@, m) < entries_size(entries@, entries@.len() as int)
                / 2,
        mid < entries@.len() - 1 ==> entries_size(entries@, mid as int) >= entries_size(
            entries@,
            entries@.len() as int,
        ) / 2,
{
    let n = entries.len();
    let mut total: usize = 0;
    let mut i: usize = 0;
    while i < n
        invariant
            n == entries@.len(),
            0 <= i <= n,
            total == entries_size(entries@, i as int),
            entries_size(entries@, n as int) <= usize::MAX,
        decreases n - i,
    {
        proof {
            lemma_entries_size_grows(entries@, i + 1, n as int);
        }
        total = total + entries[i].len() + SLOT_SIZE;
        i = i + 1;
    }
    let half = total / 2;
    let mut left: usize = 0;
    let mut mid: usize = 0;
    while mid < n - 1 && !(left >= half && mid >= 1)
        invariant
            n == entries@.len(),
            n >= 2,
            0 <= mid <= n - 1,
            total == entries_size(entries@, n as int),
            half == total / 2,
            left == entries_size(entries@, mid as int),
            forall|m: int| 1 <= m < mid ==> #[trigger] entries_size(entries@, m) < half,
        decreases n - 1 - mid,
    {
        proof {
            lemma_entries_size_grows(entries@, mid + 1, n as int);
        }
        left = left + entries[mid].len() + SLOT_SIZE;
        mid = mid + 1;
    }
    mid
}

/// Whether a right sibling's `incoming` bytes, plus the separator pulled
/// down from the parent for an internal merge, fit in `available` bytes.
pub fn merged_fits(incoming: usize, available: usize, separator: Option<&[u8]>) -> (r: bool)
    ensures
        r == (incoming + match separator {
            Some(s) => (CHILD_SIZE + s@.len() + SLOT_SIZE) as int,
            None => 0int,
        } <= available),
{
    let extra: usize = match separator {
        Some(s) => {
            if s.len() > usize::MAX - CHILD_SIZE - SLOT_SIZE {
                return false;
            }
            CHILD_SIZE + s.len() + SLOT_SIZE
        },
        None => 0,
    };
    if incoming > usize::MAX - extra {
        return false;
    }
    incoming + extra <= available
}

} // verus!

verus! {

/// The key and record id read back from a leaf entry are those it was
/// made of.
pub proof fn lemma_leaf_entry(rid: RecordId, key: Seq<u8>)
    ensures
        leaf_entry(rid, key).len() == RID_SIZE + key.len(),
        leaf_entry(rid, key).subrange(RID_SIZE as int, leaf_entry(rid, key).len() as int) == key,
        record_id_at(leaf_entry(rid, key), 0) == rid,
{
    let e = leaf_entry(rid, key);
    crate::page::lemma_record_id_round_trip(rid);
    assert(e.subrange(0, 10) =~= record_id_bytes(rid));
    assert(record_id_at(e, 0) == record_id_at(record_id_bytes(rid), 0));
    assert(e.subrange(RID_SIZE as int, e.len() as int) =~= key);
}

/// The key and child read back from an internal entry are those it was
/// made of.
pub proof fn lemma_internal_entry(child: u64, key: Seq<u8>)
    ensures
        internal_entry(child, key).len() == CHILD_SIZE + key.len(),
        internal_entry(child, key).subrange(CHILD_SIZE as int, internal_entry(child, key).len() as int)
            == key,
        le_u64(internal_entry(child, key), 0) == child,
{
    let e = internal_entry(child, key);
    assert(e[0] == le64(child)[0] && e[1] == le64(child)[1] && e[2] == le64(child)[2] && e[3]
        == le64(child)[3] && e[4] == le64(child)[4] && e[5] == le64(child)[5] && e[6] == le64(
        child,
    )[6] && e[7] == le64(child)[7]);
    assert(e.subrange(CHILD_SIZE as int, e.len() as int) =~= key);
}

/// Appends `entries[lo..hi]` to the page in order, stopping at the first
/// that does not fit.
pub fn append_entries(page: &mut Page, entries: &Vec<Vec<u8>>, lo: usize, hi: usize) -> (r: Result<()>)
    requires
        slotted_wf(old(page)@),
        lo <= hi <= entries@.len(),
        forall|k: int| 0 <= k < entries@.len() ==> (#[trigger] entries@[k])@.len() <= PAGE_SIZE,
    ensures
        slotted_wf(final(page)@),
        page_type_of(final(page)@) == page_type_of(old(page)@),
        link_of(final(page)@) == link_of(old(page)@),
        match r {
            Ok(()) => {
                &&& records_of(final(page)@).len() == records_of(old(page)@).len() + (hi - lo)
                &&& forall|k: int|
                    0 <= k < records_of(old(page)@).len() ==> #[trigger] records_of(final(page)@)[k]
                        == records_of(old(page)@)[k]
                &&& forall|k: int|
                    lo <= k < hi ==> records_of(final(page)@)[records_of(old(page)@).len() + k - lo]
                        == Some((#[trigger] entries@[k])@)
            },
            Err(Error::PageFull { .. }) => true,
            _ => false,
        },
        entries_size(entries@, hi as int) - entries_size(entries@, lo as int) <= free_bytes_of(old(page)@) ==> r is Ok,
        r is Ok ==> free_bytes_of(final(page)@) == free_bytes_of(old(page)@) - (entries_size(entries@, hi as int)
            - entries_size(entries@, lo as int)),
{
    let ghost n0 = records_of(page@).len();
    let mut i = lo;
    while i < hi
        invariant
            lo <= i <= hi <= entries@.len(),
            forall|k: int| 0 <= k < entries@.len() ==> (#[trigger] entries@[k])@.len() <= PAGE_SIZE,
            n0 == records_of(old(page)@).len(),
            slotted_wf(page@),
            page_type_of(page@) == page_type_of(old(page)@),
            link_of(page@) == link_of(old(page)@),
            records_of(page@).len() == n0 + (i - lo),
            forall|k: int| 0 <= k < n0 ==> #[trigger] records_of(page@)[k] == records_of(old(page)@)[k],
            forall|k: int| lo <= k < i ==> records_of(page@)[n0 + k - lo] == Some((#[trigger] entries@[k])@),
            free_bytes_of(page@) == free_bytes_of(old(page)@) - (entries_size(entries@, i as int) - entries_size(
                entries@,
                lo as int,
            )),
        decreases hi - i,
    {
        proof {
            lemma_entries_size_grows(entries@, i + 1, hi as int);
        }
        let ghost before = records_of(page@);
        match page.append_slot(entries[i].as_slice()) {
            Ok(_) => {},
            Err(e) => return Err(e),
        }
        proof {
            assert(records_of(page@) == before.push(Some(entries@[i as int]@)));
            assert forall|k: int| lo <= k < i + 1 implies records_of(page@)[n0 + k - lo] == Some((#[trigger] entries@[k])@) by {
                if k < i {
                    assert(records_of(page@)[n0 + k - lo] == before[n0 + k - lo]);
                }
            }
        }
        i = i + 1;
    }
    Ok(())
}

/// A node that gains, loses or has an entry replaced stays a node, and its
/// keys follow along.
pub proof fn lemma_node_records_change(s: Seq<u8>, t: Seq<u8>)
    requires
        node_ok(s),
        slotted_wf(t),
        page_type_of(t) == page_type_of(s),
        link_of(t) == link_of(s),
        forall|i: int|
            0 <= i < slot_count_of(t) ==> (#[trigger] records_of(t)[i]) is Some && records_of(
                t,
            )[i]->0.len() >= entry_header(s),
    ensures
        node_ok(t),
{
}

impl Page {
    pub fn is_leaf(&self) -> (r: bool)
        ensures
            r == is_leaf_page(self@),
    {
        self.page_type() == PAGE_TYPE_LEAF
    }

    pub fn is_internal(&self) -> (r: bool)
        ensures
            r == is_internal_page(self@),
    {
        self.page_type() == PAGE_TYPE_INTERNAL
    }

    /// The next leaf in key order; the last leaf has none.
    pub fn next_leaf(&self) -> (r: Option<PageId>)
        ensures
            r == (if link_of(self@) == NO_PAGE {
                None
            } else {
                Some(PageId(link_of(self@)))
            }),
    {
        match self.link() {
            NO_PAGE => None,
            raw => Some(PageId(raw)),
        }
    }

    /// Sets the next leaf; the last leaf in the chain has none.
    pub fn set_next_leaf(&mut self, next: Option<PageId>)
        ensures
            final(self)@ == splice(
                old(self)@,
                crate::page::slotted::OFF_LINK as int,
                le64(
                    match next {
                        Some(p) => p.0,
                        None => NO_PAGE,
                    },
                ),
            ),
            link_of(final(self)@) == match next {
                Some(p) => p.0,
                None => NO_PAGE,
            },
            page_type_of(final(self)@) == page_type_of(old(self)@),
            slotted_wf(old(self)@) ==> slotted_wf(final(self)@) && records_of(final(self)@)
                == records_of(old(self)@),
            slot_count_of(final(self)@) == slot_count_of(old(self)@),
            free_bytes_of(final(self)@) == free_bytes_of(old(self)@),
            frag_bytes_of(final(self)@) == frag_bytes_of(old(self)@),
    {
        let raw = match next {
            Some(page_id) => page_id.0,
            None => NO_PAGE,
        };
        self.set_link(raw);
    }

    /// The rightmost child of an internal node.
    pub fn rightmost_child(&self) -> (r: Option<PageId>)
        ensures
            r == (if link_of(self@) == NO_PAGE {
                None
            } else {
                Some(PageId(link_of(self@)))
            }),
    {
        match self.link() {
            NO_PAGE => None,
            raw => Some(PageId(raw)),
        }
    }

    pub fn set_rightmost_child(&mut self, child: PageId)
        ensures
            link_of(final(self)@) == child.0,
            page_type_of(final(self)@) == page_type_of(old(self)@),
            slotted_wf(old(self)@) ==> slotted_wf(final(self)@) && records_of(final(self)@)
                == records_of(old(self)@),
            slot_count_of(final(self)@) == slot_count_of(old(self)@),
            free_bytes_of(final(self)@) == free_bytes_of(old(self)@),
            frag_bytes_of(final(self)@) == frag_bytes_of(old(self)@),
    {
        self.set_link(child.0);
    }

    /// Turns the page into an empty leaf with no next leaf.
    pub fn init_leaf(&mut self)
        ensures
            node_ok(final(self)@),
            is_leaf_page(final(self)@),
            slot_count_of(final(self)@) == 0,
            link_of(final(self)@) == NO_PAGE,
            free_bytes_of(final(self)@) == PAGE_SIZE - HEADER_SIZE,
            frag_bytes_of(final(self)@) == 0,
    {
        self.init_slotted();
        self.set_page_type(PAGE_TYPE_LEAF);
        self.set_next_leaf(None);
    }

    /// Turns the page into an empty internal node whose only child is
    /// `rightmost`.
    pub fn init_internal(&mut self, rightmost: PageId)
        ensures
            slotted_wf(final(self)@),
            rightmost.0 != NO_PAGE ==> node_ok(final(self)@),
            is_internal_page(final(self)@),
            slot_count_of(final(self)@) == 0,
            link_of(final(self)@) == rightmost.0,
            free_bytes_of(final(self)@) == PAGE_SIZE - HEADER_SIZE,
            frag_bytes_of(final(self)@) == 0,
    {
        self.init_slotted();
        self.set_page_type(PAGE_TYPE_INTERNAL);
        self.set_rightmost_child(rightmost);
    }

    /// Whether a slotted page is a node, checked entry by entry.
    pub fn check_node(&self) -> (r: bool)
        requires
            slotted_wf(self@),
        ensures
            r == node_ok(self@),
    {
        let leaf = self.is_leaf();
        if !leaf && !self.is_internal() {
            return false;
        }
        if !leaf && self.link() == NO_PAGE {
            return false;
        }
        let header = if leaf {
            RID_SIZE
        } else {
            CHILD_SIZE
        };
        let n = self.slot_count();
        let mut i: u16 = 0;
        while i < n
            invariant
                slotted_wf(self@),
                n == slot_count_of(self@),
                header == entry_header(self@),
                0 <= i <= n,
                forall|j: int|
                    0 <= j < i ==> (#[trigger] records_of(self@)[j]) is Some && records_of(
                        self@,
                    )[j]->0.len() >= header,
            decreases n - i,
        {
            match self.slot_bytes(i) {
                Ok(entry) => {
                    if entry.len() < header {
                        return false;
                    }
                },
                Err(_) => {
                    return false;
                },
            }
            i = i + 1;
        }
        true
    }

    /// The key of entry `slot` of a node.
    fn node_key_at(&self, slot: SlotId) -> (r: &[u8])
        requires
            node_ok(self@),
            slot < slot_count_of(self@),
        ensures
            r@ == node_key(self@, slot as int),
    {
        let header = if self.is_leaf() {
            RID_SIZE
        } else {
            CHILD_SIZE
        };
        let entry = match self.slot_bytes(slot) {
            Ok(e) => e,
            Err(_) => {
                assert(false);
                return &[];
            },
        };
        vstd::slice::slice_subrange(entry, header, entry.len())
    }

    pub fn leaf_key(&self, slot: SlotId) -> (r: Result<&[u8]>)
        requires
            node_ok(self@),
            is_leaf_page(self@),
        ensures
            match r {
                Ok(k) => slot < slot_count_of(self@) && k@ == node_key(self@, slot as int),
                Err(Error::NoSuchSlot(x)) => x == slot && slot >= slot_count_of(self@),
                _ => false,
            },
    {
        if slot >= self.slot_count() {
            return Err(Error::NoSuchSlot(slot));
        }
        Ok(self.node_key_at(slot))
    }

    /// Where the record of leaf entry `slot` lives.
    pub fn leaf_record_id(&self, slot: SlotId) -> (r: Result<RecordId>)
        requires
            node_ok(self@),
            is_leaf_page(self@),
        ensures
            match r {
                Ok(rid) => slot < slot_count_of(self@) && rid == leaf_rid(self@, slot as int),
                Err(Error::NoSuchSlot(x)) => x == slot && slot >= slot_count_of(self@),
                _ => false,
            },
    {
        match self.slot_bytes(slot) {
            Ok(entry) => Ok(RecordId::from_bytes(entry)),
            Err(e) => Err(e),
        }
    }

    /// Points leaf entry `slot` at another record, keeping its key.
    pub fn set_leaf_record_id(&mut self, slot: SlotId, rid: RecordId) -> (r: Result<()>)
        requires
            node_ok(old(self)@),
            is_leaf_page(old(self)@),
        ensures
            match r {
                Ok(()) => {
                    &&& slot < slot_count_of(old(self)@)
                    &&& node_ok(final(self)@)
                    &&& page_type_of(final(self)@) == page_type_of(old(self)@)
                    &&& link_of(final(self)@) == link_of(old(self)@)
                    &&& records_of(final(self)@) == records_of(old(self)@).update(
                        slot as int,
                        Some(leaf_entry(rid, node_key(old(self)@, slot as int))),
                    )
                    &&& node_keys(final(self)@) == node_keys(old(self)@)
                    &&& leaf_rid(final(self)@, slot as int) == rid
                },
                Err(Error::NoSuchSlot(x)) => x == slot && slot >= slot_count_of(old(self)@)
                    && final(self)@ == old(self)@,
                _ => false,
            },
    {
        let entry = match self.slot_bytes(slot) {
            Ok(e) => encode_leaf_entry(rid, vstd::slice::slice_subrange(e, RID_SIZE, e.len())),
            Err(e) => return Err(e),
        };
        let ghost s0 = self@;
        let ghost e = entry@;
        let r = self.overwrite_slot(slot, entry.as_slice());
        proof {
            match r {
                Ok(()) => {
                    let t = self@;
                    crate::page::lemma_record_id_round_trip(rid);
                    assert(e.subrange(0, 10) =~= record_id_bytes(rid));
                    assert(record_id_at(e, 0) == record_id_at(record_id_bytes(rid), 0));
                    assert forall|i: int|
                        0 <= i < slot_count_of(t) implies (#[trigger] records_of(t)[i]) is Some
                        && records_of(t)[i]->0.len() >= entry_header(s0) by {
                        if i != slot {
                            assert(records_of(t)[i] == records_of(s0)[i]);
                        }
                    }
                    lemma_node_records_change(s0, t);
                    assert forall|i: int| 0 <= i < slot_count_of(t) implies #[trigger] node_keys(
                        t,
                    )[i] == node_keys(s0)[i] by {
                        if i == slot {
                            assert(node_key(t, i) =~= node_key(s0, i));
                        }
                    }
                    assert(node_keys(t) =~= node_keys(s0));
                },
                Err(_) => {},
            }
        }
        r
    }

    pub fn internal_key(&self, slot: SlotId) -> (r: Result<&[u8]>)
        requires
            node_ok(self@),
            is_internal_page(self@),
        ensures
            match r {
                Ok(k) => slot < slot_count_of(self@) && k@ == node_key(self@, slot as int),
                Err(Error::NoSuchSlot(x)) => x == slot && slot >= slot_count_of(self@),
                _ => false,
            },
    {
        if slot >= self.slot_count() {
            return Err(Error::NoSuchSlot(slot));
        }
        Ok(self.node_key_at(slot))
    }

    pub fn internal_child(&self, slot: SlotId) -> (r: Result<PageId>)
        requires
            node_ok(self@),
            is_internal_page(self@),
        ensures
            match r {
                Ok(c) => slot < slot_count_of(self@) && c.0 == entry_child(self@, slot as int),
                Err(Error::NoSuchSlot(x)) => x == slot && slot >= slot_count_of(self@),
                _ => false,
            },
    {
        match self.slot_bytes(slot) {
            Ok(entry) => Ok(internal_entry_child(entry)),
            Err(e) => Err(e),
        }
    }

    /// Points internal entry `slot` at another child, keeping its key.
    pub fn set_internal_child(&mut self, slot: SlotId, child: PageId) -> (r: Result<()>)
        requires
            node_ok(old(self)@),
            is_internal_page(old(self)@),
        ensures
            match r {
                Ok(()) => {
                    &&& slot < slot_count_of(old(self)@)
                    &&& node_ok(final(self)@)
                    &&& page_type_of(final(self)@) == page_type_of(old(self)@)
                    &&& link_of(final(self)@) == link_of(old(self)@)
                    &&& records_of(final(self)@) == records_of(old(self)@).update(
                        slot as int,
                        Some(internal_entry(child.0, node_key(old(self)@, slot as int))),
                    )
                    &&& node_keys(final(self)@) == node_keys(old(self)@)
                    &&& entry_child(final(self)@, slot as int) == child.0
                },
                Err(Error::NoSuchSlot(x)) => x == slot && slot >= slot_count_of(old(self)@)
                    && final(self)@ == old(self)@,
                _ => false,
            },
    {
        let entry = match self.slot_bytes(slot) {
            Ok(e) => encode_internal_entry(child, vstd::slice::slice_subrange(e, CHILD_SIZE, e.len())),
            Err(e) => return Err(e),
        };
        let ghost s0 = self@;
        let ghost e = entry@;
        let r = self.overwrite_slot(slot, entry.as_slice());
        proof {
            match r {
                Ok(()) => {
                    let t = self@;
                    assert(e[0] == le64(child.0)[0] && e[1] == le64(child.0)[1] && e[2] == le64(child.0)[2]
                        && e[3] == le64(child.0)[3] && e[4] == le64(child.0)[4] && e[5] == le64(child.0)[5]
                        && e[6] == le64(child.0)[6] && e[7] == le64(child.0)[7]);
                    assert forall|i: int|
                        0 <= i < slot_count_of(t) implies (#[trigger] records_of(t)[i]) is Some
                        && records_of(t)[i]->0.len() >= entry_header(s0) by {
                        if i != slot {
                            assert(records_of(t)[i] == records_of(s0)[i]);
                        }
                    }
                    lemma_node_records_change(s0, t);
                    assert forall|i: int| 0 <= i < slot_count_of(t) implies #[trigger] node_keys(
                        t,
                    )[i] == node_keys(s0)[i] by {
                        if i == slot {
                            assert(node_key(t, i) =~= node_key(s0, i));
                        }
                    }
                    assert(node_keys(t) =~= node_keys(s0));
                },
                Err(_) => {},
            }
        }
        r
    }

    /// The key of slot `slot`, for binary search comparisons.
    pub fn key_at(&self, slot: SlotId) -> (r: Result<&[u8]>)
        requires
            node_ok(self@),
        ensures
            match r {
                Ok(k) => slot < slot_count_of(self@) && k@ == node_key(self@, slot as int),
                Err(Error::NoSuchSlot(x)) => x == slot && slot >= slot_count_of(self@),
                _ => false,
            },
    {
        if self.is_leaf() {
            self.leaf_key(slot)
        } else {
            self.internal_key(slot)
        }
    }

    /// Binary search for `key`: whether it is there, and its slot, or else
    /// the slot where it would go. In a node with sorted keys the slot has
    /// exactly the smaller keys before it.
    pub fn search_slot(&self, key: &[u8]) -> (r: Result<(bool, SlotId)>)
        requires
            node_ok(self@),
        ensures
            match r {
                Ok((found, slot)) => {
                    &&& slot <= slot_count_of(self@)
                    &&& found ==> slot < slot_count_of(self@) && node_key(self@, slot as int)
                        == key@
                    &&& keys_sorted(node_keys(self@)) ==> {
                        &&& forall|i: int| 0 <= i < slot ==> key_lt(#[trigger] node_key(self@, i), key@)
                        &&& !found ==> forall|i: int|
                            slot <= i < slot_count_of(self@) ==> key_lt(key@, #[trigger] node_key(self@, i))
                    }
                },
                Err(_) => false,
            },
    {
        let n = self.slot_count();
        let ghost keys = node_keys(self@);
        let mut low: u16 = 0;
        let mut high: u16 = n;  // one past the last candidate
        while low < high
            invariant
                node_ok(self@),
                keys == node_keys(self@),
                n == slot_count_of(self@),
                0 <= low <= high <= n,
                keys_sorted(keys) ==> forall|i: int| 0 <= i < low ==> key_lt(#[trigger] node_key(self@, i), key@),
                keys_sorted(keys) ==> forall|i: int|
                    high <= i < n ==> key_lt(key@, #[trigger] node_key(self@, i)),
            decreases high - low,
        {
            let mid = (low + high - 1) / 2;
            let mid_key = self.node_key_at(mid);
            let c = compare_keys(mid_key, key);
            if c == 0 {
                proof {
                    if keys_sorted(keys) {
                        assert forall|i: int| 0 <= i < mid implies key_lt(#[trigger] node_key(self@, i), key@) by {
                            assert(key_lt(keys[i], keys[mid as int]));
                        }
                    }
                }
                return Ok((true, mid));
            } else if c > 0 {
                proof {
                    if keys_sorted(keys) {
                        assert forall|i: int| mid <= i < n implies key_lt(key@, #[trigger] node_key(self@, i)) by {
                            if i > mid {
                                assert(key_lt(keys[mid as int], keys[i]));
                                lemma_key_lt_transitive(key@, node_key(self@, mid as int), node_key(self@, i));
                            }
                        }
                    }
                }
                high = mid;
            } else {
                proof {
                    if keys_sorted(keys) {
                        assert forall|i: int| 0 <= i <= mid implies key_lt(#[trigger] node_key(self@, i), key@) by {
                            if i < mid {
                                assert(key_lt(keys[i], keys[mid as int]));
                                lemma_key_lt_transitive(node_key(self@, i), node_key(self@, mid as int), key@);
                            }
                        }
                    }
                }
                low = mid + 1;
            }
        }
        Ok((false, low))
    }

    /// The position of the child to descend into for `key`: keys equal to a
    /// separator go to its right.
    pub fn child_slot_for_key(&self, key: &[u8]) -> (r: Result<SlotId>)
        requires
            node_ok(self@),
            is_internal_page(self@),
        ensures
            match r {
                Ok(c) => {
                    &&& c <= slot_count_of(self@)
                    &&& keys_sorted(node_keys(self@)) ==> {
                        &&& forall|i: int| 0 <= i < c ==> key_le(#[trigger] node_key(self@, i), key@)
                        &&& forall|i: int|
                            c <= i < slot_count_of(self@) ==> key_lt(key@, #[trigger] node_key(self@, i))
                    }
                },
                Err(_) => false,
            },
    {
        let (found, slot) = match self.search_slot(key) {
            Ok(x) => x,
            Err(e) => return Err(e),
        };
        let child_slot = if found {
            slot + 1
        } else {
            slot
        };
        proof {
            if found && keys_sorted(node_keys(self@)) {
                assert forall|i: int| slot < i < slot_count_of(self@) implies key_lt(key@, #[trigger] node_key(self@, i)) by {
                    assert(key_lt(node_keys(self@)[slot as int], node_keys(self@)[i]));
                }
            }
        }
        Ok(child_slot)
    }

    /// Child `slot` of an internal node; the slot after the last entry is
    /// the rightmost child.
    pub fn child_at(&self, slot: SlotId) -> (r: Result<PageId>)
        requires
            node_ok(self@),
            is_internal_page(self@),
        ensures
            match r {
                Ok(c) => slot <= slot_count_of(self@) && c.0 == child_at_spec(self@, slot as int),
                Err(Error::NoSuchSlot(x)) => x == slot && slot > slot_count_of(self@),
                _ => false,
            },
    {
        if slot == self.slot_count() {
            return Ok(PageId(self.link()));
        }
        self.internal_child(slot)
    }

    /// The child to descend into for `key`.
    pub fn child_for_key(&self, key: &[u8]) -> (r: Result<PageId>)
        requires
            node_ok(self@),
            is_internal_page(self@),
        ensures
            match r {
                Ok(c) => exists|i: int|
                    0 <= i <= slot_count_of(self@) && c.0 == #[trigger] child_at_spec(self@, i),
                Err(_) => false,
            },
            keys_sorted(node_keys(self@)) ==> r == Ok::<PageId, Error>(
                PageId(child_at_spec(self@, crate::btree::tree::child_index(self@, key@))),
            ),
    {
        let child_slot = match self.child_slot_for_key(key) {
            Ok(c) => c,
            Err(e) => return Err(e),
        };
        proof {
            if keys_sorted(node_keys(self@)) {
                crate::btree::tree::lemma_child_bound_unique(self@, key@, child_slot as int);
            }
        }
        self.child_at(child_slot)
    }

    /// Whether more than half of the usable space of the page is free or
    /// stranded.
    pub fn is_underfull(&self) -> (r: bool)
        ensures
            r == underfull(self@),
    {
        self.free_space() + self.frag_space() > (PAGE_SIZE - HEADER_SIZE) / 2
    }
}

} // verus!
