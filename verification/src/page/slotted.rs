//! The slotted layout: a 32-byte header, a slot array growing up from the
//! header, and record bytes growing down from the end of the page.
use crate::error::{Error, Result};
use crate::page::{
    group_bytes, le16, le64, le_u16, le_u64, lemma_page_len, splice, u16_bytes, zero_page, Page,
    PAGE_SIZE,
};
use vstd::prelude::*;

verus! {

broadcast use group_bytes, lemma_page_len;

pub type SlotId = u16;

pub const OFF_LSN: usize = 0;  // u64, log sequence number

pub const OFF_CHECKSUM: usize = 8;  // u32

pub const OFF_PAGE_TYPE: usize = 12;  // u8

pub const OFF_FLAGS: usize = 13;  // u8

pub const OFF_SLOT_COUNT: usize = 14;  // u16

pub const OFF_FREE_PTR: usize = 16;  // u16, start of the record region

pub const OFF_FREE_BYTES: usize = 18;  // u16, free bytes between slot array and records

pub const OFF_FRAG_BYTES: usize = 20;  // u16, bytes stranded by removals

pub const OFF_RESERVED: usize = 22;  // 2 bytes

pub const OFF_LINK: usize = 24;  // u64, next leaf or rightmost child

pub const HEADER_SIZE: usize = 32;

/// A slot entry: record offset (`u16`) and record length (`u16`).
pub const SLOT_SIZE: usize = 4;

pub const PAGE_TYPE_SLOTTED: u8 = 1;

/// Most slots a page can hold.
pub const MAX_SLOTS: usize = 1016;

/// The largest record that a page can hold: the whole space after the
/// header, less its slot entry.
pub const MAX_RECORD: usize = PAGE_SIZE - HEADER_SIZE - SLOT_SIZE;

pub open spec fn slot_count_of(s: Seq<u8>) -> u16 {
    le_u16(s, OFF_SLOT_COUNT as int)
}

pub open spec fn free_ptr_of(s: Seq<u8>) -> u16 {
    le_u16(s, OFF_FREE_PTR as int)
}

pub open spec fn free_bytes_of(s: Seq<u8>) -> u16 {
    le_u16(s, OFF_FREE_BYTES as int)
}

pub open spec fn frag_bytes_of(s: Seq<u8>) -> u16 {
    le_u16(s, OFF_FRAG_BYTES as int)
}

pub open spec fn page_type_of(s: Seq<u8>) -> u8 {
    s[OFF_PAGE_TYPE as int]
}

pub open spec fn link_of(s: Seq<u8>) -> u64 {
    le_u64(s, OFF_LINK as int)
}

/// Position of slot entry `i`.
pub open spec fn entry_pos(i: int) -> int {
    HEADER_SIZE + SLOT_SIZE * i
}

/// Slot entry `i`: (offset, length).
pub open spec fn entry_of(s: Seq<u8>, i: int) -> (u16, u16) {
    (le_u16(s, entry_pos(i)), le_u16(s, entry_pos(i) + 2))
}

/// The slot entries in slot order.
pub open spec fn entries_of(s: Seq<u8>) -> Seq<(u16, u16)> {
    Seq::new(slot_count_of(s) as nat, |i: int| entry_of(s, i))
}

/// The record an entry points at; offset 0 marks a tombstone.
pub open spec fn record_at(s: Seq<u8>, e: (u16, u16)) -> Option<Seq<u8>> {
    if e.0 == 0 {
        None
    } else {
        Some(s.subrange(e.0 as int, e.0 + e.1))
    }
}

/// The records of the page in slot order, `None` for a tombstone.
pub open spec fn records_of(s: Seq<u8>) -> Seq<Option<Seq<u8>>> {
    Seq::new(slot_count_of(s) as nat, |i: int| record_at(s, entry_of(s, i)))
}

pub open spec fn opt_len(r: Option<Seq<u8>>) -> int {
    match r {
        Some(b) => b.len() as int,
        None => 0,
    }
}

/// Bytes that the live records take.
pub open spec fn total_len(rs: Seq<Option<Seq<u8>>>) -> int
    decreases rs.len(),
{
    if rs.len() == 0 {
        0
    } else {
        total_len(rs.drop_last()) + opt_len(rs.last())
    }
}

/// Bytes that a live record takes together with its slot entry.
pub open spec fn entry_size(r: Option<Seq<u8>>) -> int {
    match r {
        Some(b) => b.len() + SLOT_SIZE,
        None => 0,
    }
}

/// Bytes that the live records take together with their slot entries.
pub open spec fn live_size(rs: Seq<Option<Seq<u8>>>) -> int
    decreases rs.len(),
{
    if rs.len() == 0 {
        0
    } else {
        live_size(rs.drop_last()) + entry_size(rs.last())
    }
}

pub open spec fn entry_fits(e: (u16, u16), fp: int) -> bool {
    (e.0 == 0 && e.1 == 0) || (fp <= e.0 && e.0 + e.1 <= PAGE_SIZE)
}

/// Two entries whose records do not share a byte.
pub open spec fn entries_disjoint(e: (u16, u16), f: (u16, u16)) -> bool {
    e.0 == 0 || f.0 == 0 || e.0 + e.1 <= f.0 || f.0 + f.1 <= e.0
}

/// A well-formed slotted page: the slot array ends before the record
/// region, the cached free space matches the layout, every live entry points
/// into the record region, and the record region holds at least the live
/// records and the stranded bytes.
pub open spec fn slotted_wf(s: Seq<u8>) -> bool {
    &&& s.len() == PAGE_SIZE
    &&& HEADER_SIZE + SLOT_SIZE * slot_count_of(s) <= free_ptr_of(s) <= PAGE_SIZE
    &&& free_bytes_of(s) == free_ptr_of(s) - HEADER_SIZE - SLOT_SIZE * slot_count_of(s)
    &&& forall|i: int|
        0 <= i < slot_count_of(s) ==> entry_fits(#[trigger] entry_of(s, i), free_ptr_of(s) as int)
    &&& forall|i: int, j: int|
        0 <= i < slot_count_of(s) && 0 <= j < slot_count_of(s) && i != j ==> entries_disjoint(
            #[trigger] entry_of(s, i),
            #[trigger] entry_of(s, j),
        )
    &&& frag_bytes_of(s) + total_len(records_of(s)) <= PAGE_SIZE - free_ptr_of(s)
}

pub proof fn lemma_total_len_nonneg(rs: Seq<Option<Seq<u8>>>)
    ensures
        total_len(rs) >= 0,
        live_size(rs) >= 0,
        live_size(rs) >= total_len(rs),
        live_size(rs) <= total_len(rs) + SLOT_SIZE * rs.len(),
    decreases rs.len(),
{
    if rs.len() > 0 {
        lemma_total_len_nonneg(rs.drop_last());
    }
}

pub proof fn lemma_total_len_push(rs: Seq<Option<Seq<u8>>>, x: Option<Seq<u8>>)
    ensures
        total_len(rs.push(x)) == total_len(rs) + opt_len(x),
        live_size(rs.push(x)) == live_size(rs) + entry_size(x),
{
    assert(rs.push(x).drop_last() =~= rs);
}

pub proof fn lemma_total_len_insert(rs: Seq<Option<Seq<u8>>>, k: int, x: Option<Seq<u8>>)
    requires
        0 <= k <= rs.len(),
    ensures
        total_len(rs.insert(k, x)) == total_len(rs) + opt_len(x),
        live_size(rs.insert(k, x)) == live_size(rs) + entry_size(x),
    decreases rs.len(),
{
    if k == rs.len() {
        assert(rs.insert(k, x) =~= rs.push(x));
        lemma_total_len_push(rs, x);
    } else {
        lemma_total_len_insert(rs.drop_last(), k, x);
        assert(rs.insert(k, x).drop_last() =~= rs.drop_last().insert(k, x));
    }
}

pub proof fn lemma_total_len_remove(rs: Seq<Option<Seq<u8>>>, k: int)
    requires
        0 <= k < rs.len(),
    ensures
        total_len(rs.remove(k)) == total_len(rs) - opt_len(rs[k]),
        live_size(rs.remove(k)) == live_size(rs) - entry_size(rs[k]),
    decreases rs.len(),
{
    if k == rs.len() - 1 {
        assert(rs.remove(k) =~= rs.drop_last());
    } else {
        lemma_total_len_remove(rs.drop_last(), k);
        assert(rs.remove(k).drop_last() =~= rs.drop_last().remove(k));
    }
}

pub proof fn lemma_total_len_update(rs: Seq<Option<Seq<u8>>>, k: int, x: Option<Seq<u8>>)
    requires
        0 <= k < rs.len(),
    ensures
        total_len(rs.update(k, x)) == total_len(rs) - opt_len(rs[k]) + opt_len(x),
        live_size(rs.update(k, x)) == live_size(rs) - entry_size(rs[k]) + entry_size(x),
    decreases rs.len(),
{
    if k == rs.len() - 1 {
        assert(rs.update(k, x).drop_last() =~= rs.drop_last());
    } else {
        lemma_total_len_update(rs.drop_last(), k, x);
        assert(rs.update(k, x).drop_last() =~= rs.drop_last().update(k, x));
    }
}

pub proof fn lemma_total_len_prefix(rs: Seq<Option<Seq<u8>>>, i: int)
    requires
        0 <= i < rs.len(),
    ensures
        total_len(rs.subrange(0, i + 1)) == total_len(rs.subrange(0, i)) + opt_len(rs[i]),
        live_size(rs.subrange(0, i + 1)) == live_size(rs.subrange(0, i)) + entry_size(rs[i]),
{
    assert(rs.subrange(0, i + 1).drop_last() =~= rs.subrange(0, i));
}

pub proof fn lemma_total_len_prefix_le(rs: Seq<Option<Seq<u8>>>, i: int)
    requires
        0 <= i <= rs.len(),
    ensures
        total_len(rs.subrange(0, i)) <= total_len(rs),
        live_size(rs.subrange(0, i)) <= live_size(rs),
    decreases rs.len() - i,
{
    if i == rs.len() {
        assert(rs.subrange(0, i) =~= rs);
    } else {
        lemma_total_len_prefix_le(rs, i + 1);
        lemma_total_len_prefix(rs, i);
        lemma_total_len_nonneg(rs);
    }
}

/// A record pointed at from inside the record region depends only on the
/// record region.
pub proof fn lemma_record_at_agree(s: Seq<u8>, t: Seq<u8>, e: (u16, u16), fp: int)
    requires
        s.len() == PAGE_SIZE,
        t.len() == PAGE_SIZE,
        0 <= fp,
        entry_fits(e, fp),
        forall|x: int| fp <= x < PAGE_SIZE ==> t[x] == s[x],
    ensures
        record_at(t, e) == record_at(s, e),
{
    if e.0 != 0 {
        assert(t.subrange(e.0 as int, e.0 + e.1) =~= s.subrange(e.0 as int, e.0 + e.1));
    }
}

/// Pages that agree on the header fields after the page type and on
/// everything after the header have the same layout and records.
pub proof fn lemma_same_layout(s: Seq<u8>, t: Seq<u8>)
    requires
        s.len() == PAGE_SIZE,
        t.len() == PAGE_SIZE,
        forall|x: int| OFF_SLOT_COUNT <= x < OFF_RESERVED ==> t[x] == s[x],
        forall|x: int| HEADER_SIZE <= x < PAGE_SIZE ==> t[x] == s[x],
    ensures
        slot_count_of(t) == slot_count_of(s),
        free_ptr_of(t) == free_ptr_of(s),
        free_bytes_of(t) == free_bytes_of(s),
        frag_bytes_of(t) == frag_bytes_of(s),
        HEADER_SIZE + SLOT_SIZE * slot_count_of(s) <= PAGE_SIZE ==> entries_of(t) == entries_of(s),
        slotted_wf(s) ==> slotted_wf(t) && records_of(t) == records_of(s),
{
    assert(t[OFF_SLOT_COUNT as int] == s[OFF_SLOT_COUNT as int]);
    assert(t[OFF_SLOT_COUNT + 1] == s[OFF_SLOT_COUNT + 1]);
    assert(slot_count_of(t) == slot_count_of(s));
    if HEADER_SIZE + SLOT_SIZE * slot_count_of(s) <= PAGE_SIZE {
        assert(entries_of(t) =~= entries_of(s));
    }
    if slotted_wf(s) {
        assert forall|i: int| 0 <= i < slot_count_of(s) implies #[trigger] entry_of(t, i)
            == entry_of(s, i) by {
            assert(entries_of(t)[i] == entries_of(s)[i]);
        }
        assert forall|i: int| 0 <= i < slot_count_of(s) implies #[trigger] records_of(t)[i]
            == records_of(s)[i] by {
            lemma_record_at_agree(s, t, entry_of(s, i), free_ptr_of(s) as int);
        }
        assert(records_of(t) =~= records_of(s));
    }
}

impl Page {
    /// The records of the page in slot order.
    pub open spec fn records(&self) -> Seq<Option<Seq<u8>>> {
        records_of(self@)
    }

    /// Whether the page is a well-formed slotted page.
    pub open spec fn is_slotted(&self) -> bool {
        slotted_wf(self@)
    }

    /// Turns the page into an empty slotted page; the bytes after the header
    /// stay as they were.
    pub fn init_slotted(&mut self)
        ensures
            slotted_wf(final(self)@),
            records_of(final(self)@) == Seq::<Option<Seq<u8>>>::empty(),
            slot_count_of(final(self)@) == 0,
            free_ptr_of(final(self)@) == PAGE_SIZE,
            free_bytes_of(final(self)@) == PAGE_SIZE - HEADER_SIZE,
            frag_bytes_of(final(self)@) == 0,
            page_type_of(final(self)@) == PAGE_TYPE_SLOTTED,
            link_of(final(self)@) == 0,
            final(self)@.subrange(HEADER_SIZE as int, PAGE_SIZE as int) == old(self)@.subrange(
                HEADER_SIZE as int,
                PAGE_SIZE as int,
            ),
    {
        let header: [u8; 32] = [
            0, 0, 0, 0, 0, 0, 0, 0,  // lsn
            0, 0, 0, 0,  // checksum
            1,  // page type
            0,  // flags
            0, 0,  // slot count
            0x00, 0x10,  // free pointer: 4096
            0xe0, 0x0f,  // free bytes: 4064
            0, 0,  // fragmented bytes
            0, 0,  // reserved
            0, 0, 0, 0, 0, 0, 0, 0,  // link
        ];
        self.write_bytes(0, header.as_slice());
        let ghost s = self@;
        assert(u16_of_bytes(0, 0x10) == 4096) by (bit_vector);
        assert(u16_of_bytes(0xe0, 0x0f) == 4064) by (bit_vector);
        assert(u16_of_bytes(0, 0) == 0) by (bit_vector);
        assert(crate::page::u64_of(0, 0, 0, 0, 0, 0, 0, 0) == 0) by (bit_vector);
        assert(free_ptr_of(s) == 4096);
        assert(free_bytes_of(s) == 4064);
        assert(slot_count_of(s) == 0);
        assert(frag_bytes_of(s) == 0);
        assert(link_of(s) == 0);
        assert(records_of(s) =~= Seq::<Option<Seq<u8>>>::empty());
        assert(s.subrange(HEADER_SIZE as int, PAGE_SIZE as int) =~= old(self)@.subrange(
            HEADER_SIZE as int,
            PAGE_SIZE as int,
        ));
    }

    pub fn slot_count(&self) -> (r: u16)
        ensures
            r == slot_count_of(self@),
    {
        self.read_u16(OFF_SLOT_COUNT)
    }

    /// Free bytes between the slot array and the records.
    pub fn free_space(&self) -> (r: usize)
        ensures
            r == free_bytes_of(self@),
    {
        self.read_u16(OFF_FREE_BYTES) as usize
    }

    /// Bytes that a compaction would hand back, on top of the free space.
    pub fn frag_space(&self) -> (r: usize)
        ensures
            r == frag_bytes_of(self@),
    {
        self.read_u16(OFF_FRAG_BYTES) as usize
    }

    pub fn page_type(&self) -> (r: u8)
        ensures
            r == page_type_of(self@),
    {
        self.read_u8(OFF_PAGE_TYPE)
    }

    pub fn set_page_type(&mut self, page_type: u8)
        ensures
            final(self)@ == old(self)@.update(OFF_PAGE_TYPE as int, page_type),
            page_type_of(final(self)@) == page_type,
            link_of(final(self)@) == link_of(old(self)@),
            slotted_wf(old(self)@) ==> slotted_wf(final(self)@) && records_of(final(self)@)
                == records_of(old(self)@),
            HEADER_SIZE + SLOT_SIZE * slot_count_of(old(self)@) <= PAGE_SIZE ==> entries_of(
                final(self)@,
            ) == entries_of(old(self)@),
            slot_count_of(final(self)@) == slot_count_of(old(self)@),
            free_bytes_of(final(self)@) == free_bytes_of(old(self)@),
            frag_bytes_of(final(self)@) == frag_bytes_of(old(self)@),
            free_ptr_of(final(self)@) == free_ptr_of(old(self)@),
    {
        self.write_u8(OFF_PAGE_TYPE, page_type);
        proof {
            lemma_same_layout(old(self)@, self@);
        }
    }

    pub fn link(&self) -> (r: u64)
        ensures
            r == link_of(self@),
    {
        self.read_u64(OFF_LINK)
    }

    pub fn set_link(&mut self, value: u64)
        ensures
            final(self)@ == splice(old(self)@, OFF_LINK as int, le64(value)),
            link_of(final(self)@) == value,
            page_type_of(final(self)@) == page_type_of(old(self)@),
            slotted_wf(old(self)@) ==> slotted_wf(final(self)@) && records_of(final(self)@)
                == records_of(old(self)@),
            HEADER_SIZE + SLOT_SIZE * slot_count_of(old(self)@) <= PAGE_SIZE ==> entries_of(
                final(self)@,
            ) == entries_of(old(self)@),
            slot_count_of(final(self)@) == slot_count_of(old(self)@),
            free_bytes_of(final(self)@) == free_bytes_of(old(self)@),
            frag_bytes_of(final(self)@) == frag_bytes_of(old(self)@),
            free_ptr_of(final(self)@) == free_ptr_of(old(self)@),
    {
        self.write_u64(OFF_LINK, value);
        proof {
            lemma_same_layout(old(self)@, self@);
        }
    }

    /// Slot entry `slot`: (offset, length).
    pub fn read_slot(&self, slot: SlotId) -> (r: (u16, u16))
        requires
            (slot as usize) < MAX_SLOTS,
        ensures
            r == entry_of(self@, slot as int),
    {
        let pos = HEADER_SIZE + slot as usize * SLOT_SIZE;
        (self.read_u16(pos), self.read_u16(pos + 2))
    }

    fn write_slot(&mut self, slot: SlotId, offset: u16, len: u16)
        requires
            (slot as usize) < MAX_SLOTS,
        ensures
            final(self)@ == splice(old(self)@, entry_pos(slot as int), le16(offset) + le16(len)),
            entry_of(final(self)@, slot as int) == (offset, len),
    {
        let pos = HEADER_SIZE + slot as usize * SLOT_SIZE;
        let a = u16_bytes(offset);
        let b = u16_bytes(len);
        let raw: [u8; 4] = [a[0], a[1], b[0], b[1]];
        assert(raw@ =~= le16(offset) + le16(len));
        self.write_bytes(pos, raw.as_slice());
    }
}

impl Page {
    /// The bytes of the record in `slot`.
    pub fn slot_bytes(&self, slot: SlotId) -> (r: Result<&[u8]>)
        requires
            page_ok(self@),
        ensures
            match r {
                Ok(b) => slot < slot_count_of(self@) && records_of(self@)[slot as int] == Some(
                    b@,
                ),
                Err(Error::NoSuchSlot(x)) => x == slot && slot >= slot_count_of(self@),
                Err(Error::SlotDeleted(x)) => x == slot && slot < slot_count_of(self@)
                    && records_of(self@)[slot as int] is None,
                _ => false,
            },
    {
        proof {
            if !slotted_wf(self@) {
                lemma_zero_page_layout();
            }
        }
        if slot >= self.slot_count() {
            return Err(Error::NoSuchSlot(slot));
        }
        let (offset, len) = self.read_slot(slot);
        // offset 0 lands inside the header, so it can never be a live record
        if offset == 0 {
            return Err(Error::SlotDeleted(slot));
        }
        assert(entry_fits(entry_of(self@, slot as int), free_ptr_of(self@) as int));
        Ok(self.read_bytes(offset as usize, len as usize))
    }

    /// Marks the record in `slot` deleted; the slot keeps its place and its
    /// bytes stay where they are.
    pub fn tombstone_slot(&mut self, slot: SlotId) -> (r: Result<()>)
        requires
            page_ok(old(self)@),
        ensures
            match r {
                Ok(()) => {
                    &&& slot < slot_count_of(old(self)@)
                    &&& records_of(old(self)@)[slot as int] is Some
                    &&& records_of(final(self)@) == records_of(old(self)@).update(
                        slot as int,
                        None,
                    )
                    &&& slotted_wf(final(self)@)
                    &&& same_header(old(self)@, final(self)@)
                    &&& final(self)@ == splice(old(self)@, entry_pos(slot as int), le16(0) + le16(0))
                    &&& entry_of(final(self)@, slot as int) == (0u16, 0u16)
                },
                Err(Error::NoSuchSlot(x)) => x == slot && slot >= slot_count_of(old(self)@)
                    && final(self)@ == old(self)@,
                Err(Error::SlotDeleted(x)) => x == slot && slot < slot_count_of(old(self)@)
                    && records_of(old(self)@)[slot as int] is None && final(self)@ == old(self)@,
                _ => false,
            },
    {
        proof {
            if !slotted_wf(self@) {
                lemma_zero_page_layout();
            }
        }
        if slot >= self.slot_count() {
            return Err(Error::NoSuchSlot(slot));
        }
        let (offset, _) = self.read_slot(slot);
        if offset == 0 {
            return Err(Error::SlotDeleted(slot));
        }
        let ghost s0 = self@;
        // tombstone only: the record bytes stay put until compaction reclaims them
        self.write_slot(slot, 0, 0);
        proof {
            let s1 = self@;
            let n = slot_count_of(s0) as int;
            let fp = free_ptr_of(s0) as int;
            assert(slot_count_of(s1) == n);
            assert(free_ptr_of(s1) == fp);
            assert forall|i: int| 0 <= i < n && i != slot implies #[trigger] entry_of(s1, i)
                == entry_of(s0, i) by {}
            assert forall|i: int| 0 <= i < n implies entry_fits(#[trigger] entry_of(s1, i), fp) by {}
            assert forall|i: int| 0 <= i < n implies #[trigger] records_of(s1)[i]
                == records_of(s0).update(slot as int, None)[i] by {
                if i != slot {
                    lemma_record_at_agree(s0, s1, entry_of(s0, i), fp);
                }
            }
            assert(records_of(s1) =~= records_of(s0).update(slot as int, None));
            lemma_total_len_update(records_of(s0), slot as int, None);
        }
        Ok(())
    }
}

impl Page {
    /// Puts `record` at the bottom of the record region and a slot entry for
    /// it at position `slot`, shifting the later entries up by one.
    fn place_record(&mut self, slot: SlotId, record: &[u8])
        requires
            slotted_wf(old(self)@),
            slot <= slot_count_of(old(self)@),
            record@.len() + SLOT_SIZE <= free_bytes_of(old(self)@),
        ensures
            slotted_wf(final(self)@),
            records_of(final(self)@) == records_of(old(self)@).insert(slot as int, Some(record@)),
            entries_of(final(self)@) == entries_of(old(self)@).insert(
                slot as int,
                ((free_ptr_of(old(self)@) - record@.len()) as u16, record@.len() as u16),
            ),
            slot_count_of(final(self)@) == slot_count_of(old(self)@) + 1,
            free_ptr_of(final(self)@) == free_ptr_of(old(self)@) - record@.len(),
            free_bytes_of(final(self)@) == free_bytes_of(old(self)@) - record@.len() - SLOT_SIZE,
            frag_bytes_of(final(self)@) == frag_bytes_of(old(self)@),
            page_type_of(final(self)@) == page_type_of(old(self)@),
            link_of(final(self)@) == link_of(old(self)@),
    {
        let ghost s0 = self@;
        let ghost fp0 = free_ptr_of(s0) as int;
        let n = self.slot_count();
        let free = self.free_space();
        let free_ptr = self.read_u16(OFF_FREE_PTR) as usize;
        let len = record.len();

        let mut j = n;
        while j > slot
            invariant
                slotted_wf(s0),
                slot <= j <= n,
                n == slot_count_of(s0),
                HEADER_SIZE + SLOT_SIZE * (n + 1) <= free_ptr_of(s0),
                self@.len() == PAGE_SIZE,
                forall|x: int|
                    0 <= x < entry_pos(j + 1) ==> #[trigger] self@[x] == s0[x],
                forall|x: int|
                    entry_pos(n + 1) <= x < PAGE_SIZE ==> #[trigger] self@[x] == s0[x],
                forall|m: int| j < m <= n ==> #[trigger] entry_of(self@, m) == entry_of(s0, m - 1),
            decreases j,
        {
            j = j - 1;
            let (offset, l) = self.read_slot(j);
            assert(entry_of(self@, j as int) == entry_of(s0, j as int));
            let ghost before = self@;
            self.write_slot(j + 1, offset, l);
            assert forall|m: int| j < m <= n implies #[trigger] entry_of(self@, m) == entry_of(
                s0,
                m - 1,
            ) by {
                if m > j + 1 {
                    assert(entry_of(self@, m) == entry_of(before, m));
                }
            }
        }
        let ghost s1 = self@;
        let record_offset = free_ptr - len;
        self.write_bytes(record_offset, record);
        let ghost s2 = self@;
        self.write_slot(slot, record_offset as u16, len as u16);
        let ghost s3 = self@;
        // header last, so every field below describes the finished layout
        self.write_u16(OFF_FREE_PTR, record_offset as u16);
        let ghost s4 = self@;
        self.write_u16(OFF_FREE_BYTES, (free - len - SLOT_SIZE) as u16);
        let ghost s5 = self@;
        self.write_u16(OFF_SLOT_COUNT, n + 1);
        proof {
            lemma_place_bytes(s0, s1, s2, s3, s4, s5, self@, slot as int, record@);
            lemma_place_layout(s0, self@, slot as int, record@);
        }
    }

    /// Appends `record` in a fresh slot at the end of the slot array.
    pub fn append_slot(&mut self, record: &[u8]) -> (r: Result<SlotId>)
        requires
            slotted_wf(old(self)@) || free_bytes_of(old(self)@) < record@.len() + SLOT_SIZE,
            record@.len() + SLOT_SIZE <= usize::MAX,
        ensures
            match r {
                Ok(slot) => {
                    &&& record@.len() + SLOT_SIZE <= free_bytes_of(old(self)@)
                    &&& slot == slot_count_of(old(self)@)
                    &&& records_of(final(self)@) == records_of(old(self)@).push(Some(record@))
                    &&& entries_of(final(self)@) == entries_of(old(self)@).push(
                        (free_ptr_of(final(self)@), record@.len() as u16),
                    )
                    &&& entry_of(final(self)@, slot as int) == (
                        free_ptr_of(final(self)@),
                        record@.len() as u16,
                    )
                    &&& slotted_wf(final(self)@)
                    &&& slot_count_of(final(self)@) == slot_count_of(old(self)@) + 1
                    &&& free_ptr_of(final(self)@) == free_ptr_of(old(self)@) - record@.len()
                    &&& free_bytes_of(final(self)@) == free_bytes_of(old(self)@) - record@.len()
                        - SLOT_SIZE
                    &&& frag_bytes_of(final(self)@) == frag_bytes_of(old(self)@)
                    &&& page_type_of(final(self)@) == page_type_of(old(self)@)
                    &&& link_of(final(self)@) == link_of(old(self)@)
                },
                Err(Error::PageFull { size, free }) => {
                    &&& free_bytes_of(old(self)@) < record@.len() + SLOT_SIZE
                    &&& size == record@.len() + SLOT_SIZE
                    &&& free == free_bytes_of(old(self)@)
                    &&& final(self)@ == old(self)@
                },
                _ => false,
            },
    {
        let free = self.free_space();
        if free < SLOT_SIZE || free - SLOT_SIZE < record.len() {
            return Err(Error::PageFull { size: record.len() + SLOT_SIZE, free });
        }
        // ids are 0-based, so with N slots the next free id is N
        let slot = self.slot_count();
        self.place_record(slot, record);
        proof {
            assert(records_of(old(self)@).insert(slot as int, Some(record@)) =~= records_of(
                old(self)@,
            ).push(Some(record@)));
            assert(entries_of(self@)[slot as int] == entry_of(self@, slot as int));
            assert(entries_of(old(self)@).insert(slot as int, (free_ptr_of(self@), record@.len() as u16))
                =~= entries_of(old(self)@).push((free_ptr_of(self@), record@.len() as u16)));
        }
        Ok(slot)
    }

    /// Inserts `record` at position `slot`, moving the records from `slot`
    /// on one position up. `slot` may be the slot count, which appends.
    pub fn insert_slot_at(&mut self, slot: SlotId, record: &[u8]) -> (r: Result<()>)
        requires
            page_ok(old(self)@),
            record@.len() + SLOT_SIZE <= usize::MAX,
        ensures
            match r {
                Ok(()) => {
                    &&& slot <= slot_count_of(old(self)@)
                    &&& record@.len() + SLOT_SIZE <= free_bytes_of(old(self)@)
                    &&& records_of(final(self)@) == records_of(old(self)@).insert(
                        slot as int,
                        Some(record@),
                    )
                    &&& entries_of(final(self)@) == entries_of(old(self)@).insert(
                        slot as int,
                        (free_ptr_of(final(self)@), record@.len() as u16),
                    )
                    &&& slotted_wf(final(self)@)
                    &&& slot_count_of(final(self)@) == slot_count_of(old(self)@) + 1
                    &&& free_ptr_of(final(self)@) == free_ptr_of(old(self)@) - record@.len()
                    &&& free_bytes_of(final(self)@) == free_bytes_of(old(self)@) - record@.len()
                        - SLOT_SIZE
                    &&& frag_bytes_of(final(self)@) == frag_bytes_of(old(self)@)
                    &&& page_type_of(final(self)@) == page_type_of(old(self)@)
                    &&& link_of(final(self)@) == link_of(old(self)@)
                },
                Err(Error::NoSuchSlot(x)) => {
                    &&& x == slot
                    &&& slot > slot_count_of(old(self)@)
                    &&& final(self)@ == old(self)@
                },
                Err(Error::PageFull { size, free }) => {
                    &&& slot <= slot_count_of(old(self)@)
                    &&& free_bytes_of(old(self)@) < record@.len() + SLOT_SIZE
                    &&& size == record@.len() + SLOT_SIZE
                    &&& free == free_bytes_of(old(self)@)
                    &&& final(self)@ == old(self)@
                },
                _ => false,
            },
    {
        proof {
            if !slotted_wf(self@) {
                lemma_zero_page_layout();
            }
        }
        if slot > self.slot_count() {
            return Err(Error::NoSuchSlot(slot));
        }
        let free = self.free_space();
        if free < SLOT_SIZE || free - SLOT_SIZE < record.len() {
            return Err(Error::PageFull { size: record.len() + SLOT_SIZE, free });
        }
        self.place_record(slot, record);
        Ok(())
    }
}

/// The bytes after `place_record`'s writes: shifted entries (`s1`), the
/// record bytes (`s2`), the new entry (`s3`) and the three header fields.
#[verifier::rlimit(40)]
proof fn lemma_place_bytes(
    s0: Seq<u8>,
    s1: Seq<u8>,
    s2: Seq<u8>,
    s3: Seq<u8>,
    s4: Seq<u8>,
    s5: Seq<u8>,
    t: Seq<u8>,
    slot: int,
    record: Seq<u8>,
)
    requires
        slotted_wf(s0),
        0 <= slot <= slot_count_of(s0),
        record.len() + SLOT_SIZE <= free_bytes_of(s0),
        s1.len() == PAGE_SIZE,
        forall|x: int| 0 <= x < entry_pos(slot + 1) ==> #[trigger] s1[x] == s0[x],
        forall|x: int|
            entry_pos(slot_count_of(s0) + 1) <= x < PAGE_SIZE ==> #[trigger] s1[x] == s0[x],
        forall|m: int|
            slot < m <= slot_count_of(s0) ==> #[trigger] entry_of(s1, m) == entry_of(s0, m - 1),
        s2 == splice(s1, free_ptr_of(s0) - record.len(), record),
        s3 == splice(
            s2,
            entry_pos(slot),
            le16((free_ptr_of(s0) - record.len()) as u16) + le16(record.len() as u16),
        ),
        s4 == splice(s3, OFF_FREE_PTR as int, le16((free_ptr_of(s0) - record.len()) as u16)),
        s5 == splice(
            s4,
            OFF_FREE_BYTES as int,
            le16((free_bytes_of(s0) - record.len() - SLOT_SIZE) as u16),
        ),
        t == splice(s5, OFF_SLOT_COUNT as int, le16((slot_count_of(s0) + 1) as u16)),
    ensures
        t.len() == PAGE_SIZE,
        slot_count_of(t) == slot_count_of(s0) + 1,
        free_ptr_of(t) == free_ptr_of(s0) - record.len(),
        free_bytes_of(t) == free_bytes_of(s0) - record.len() - SLOT_SIZE,
        frag_bytes_of(t) == frag_bytes_of(s0),
        page_type_of(t) == page_type_of(s0),
        link_of(t) == link_of(s0),
        forall|x: int| free_ptr_of(s0) <= x < PAGE_SIZE ==> #[trigger] t[x] == s0[x],
        forall|x: int|
            free_ptr_of(s0) - record.len() <= x < free_ptr_of(s0) ==> #[trigger] t[x] == record[x
                - (free_ptr_of(s0) - record.len())],
        forall|m: int| 0 <= m < slot ==> #[trigger] entry_of(t, m) == entry_of(s0, m),
        entry_of(t, slot) == ((free_ptr_of(s0) - record.len()) as u16, record.len() as u16),
        forall|m: int|
            slot < m <= slot_count_of(s0) ==> #[trigger] entry_of(t, m) == entry_of(s0, m - 1),
{
    let n = slot_count_of(s0) as int;
    let fp0 = free_ptr_of(s0) as int;
    let len = record.len() as int;
    let off = fp0 - len;
    assert(le16((free_ptr_of(s0) - record.len()) as u16) + le16(record.len() as u16) =~= seq![
        le16(off as u16)[0],
        le16(off as u16)[1],
        le16(len as u16)[0],
        le16(len as u16)[1],
    ]);
    assert forall|m: int| slot < m <= n implies #[trigger] entry_of(t, m) == entry_of(s0, m - 1) by {
        assert(entry_of(s1, m) == entry_of(s0, m - 1));
    }
}

/// The layout that `place_record` leaves, from the bytes it left.
#[verifier::rlimit(40)]
proof fn lemma_place_layout(s0: Seq<u8>, t: Seq<u8>, slot: int, record: Seq<u8>)
    requires
        slotted_wf(s0),
        0 <= slot <= slot_count_of(s0),
        record.len() + SLOT_SIZE <= free_bytes_of(s0),
        t.len() == PAGE_SIZE,
        slot_count_of(t) == slot_count_of(s0) + 1,
        free_ptr_of(t) == free_ptr_of(s0) - record.len(),
        free_bytes_of(t) == free_bytes_of(s0) - record.len() - SLOT_SIZE,
        frag_bytes_of(t) == frag_bytes_of(s0),
        forall|x: int| free_ptr_of(s0) <= x < PAGE_SIZE ==> #[trigger] t[x] == s0[x],
        forall|x: int|
            free_ptr_of(s0) - record.len() <= x < free_ptr_of(s0) ==> #[trigger] t[x] == record[x
                - (free_ptr_of(s0) - record.len())],
        forall|m: int| 0 <= m < slot ==> #[trigger] entry_of(t, m) == entry_of(s0, m),
        entry_of(t, slot) == ((free_ptr_of(s0) - record.len()) as u16, record.len() as u16),
        forall|m: int|
            slot < m <= slot_count_of(s0) ==> #[trigger] entry_of(t, m) == entry_of(s0, m - 1),
    ensures
        slotted_wf(t),
        records_of(t) == records_of(s0).insert(slot, Some(record)),
        entries_of(t) == entries_of(s0).insert(
            slot,
            ((free_ptr_of(s0) - record.len()) as u16, record.len() as u16),
        ),
{
    let n = slot_count_of(s0) as int;
    let fp0 = free_ptr_of(s0) as int;
    let len = record.len() as int;
    let off = fp0 - len;
    let e_new = (off as u16, len as u16);
    // old(m) is the old index of the entry now at m
    assert(entries_of(t) =~= entries_of(s0).insert(slot, e_new));
    assert forall|m: int| 0 <= m <= n implies #[trigger] records_of(t)[m] == records_of(s0).insert(
        slot,
        Some(record),
    )[m] by {
        if m < slot {
            lemma_record_at_agree(s0, t, entry_of(s0, m), fp0);
        } else if m == slot {
            assert(t.subrange(off, off + len) =~= record);
        } else {
            lemma_record_at_agree(s0, t, entry_of(s0, m - 1), fp0);
        }
    }
    assert(records_of(t) =~= records_of(s0).insert(slot, Some(record)));
    lemma_total_len_insert(records_of(s0), slot, Some(record));
    assert forall|m: int| 0 <= m < n + 1 implies entry_fits(#[trigger] entry_of(t, m), off) by {
        if m < slot {
            assert(entry_fits(entry_of(s0, m), fp0));
        } else if m > slot {
            assert(entry_fits(entry_of(s0, m - 1), fp0));
        }
    }
    assert forall|i: int, j: int|
        0 <= i < n + 1 && 0 <= j < n + 1 && i != j implies entries_disjoint(
        #[trigger] entry_of(t, i),
        #[trigger] entry_of(t, j),
    ) by {
        let oi = if i < slot { i } else { i - 1 };
        let oj = if j < slot { j } else { j - 1 };
        if i != slot && j != slot {
            assert(entries_disjoint(entry_of(s0, oi), entry_of(s0, oj)));
        } else if i == slot {
            assert(entry_fits(entry_of(s0, oj), fp0));
        } else {
            assert(entry_fits(entry_of(s0, oi), fp0));
        }
    }
}

impl Page {
    /// Removes the slot entry at `slot` and moves the later entries one
    /// position down, so the slot array stays dense. The record bytes stay in
    /// place and count as stranded until a compaction.
    pub fn remove_slot_at(&mut self, slot: SlotId) -> (r: Result<()>)
        requires
            page_ok(old(self)@),
        ensures
            match r {
                Ok(()) => {
                    &&& slot < slot_count_of(old(self)@)
                    &&& records_of(final(self)@) == records_of(old(self)@).remove(slot as int)
                    &&& entries_of(final(self)@) == entries_of(old(self)@).remove(slot as int)
                    &&& slotted_wf(final(self)@)
                    &&& slot_count_of(final(self)@) == slot_count_of(old(self)@) - 1
                    &&& free_ptr_of(final(self)@) == free_ptr_of(old(self)@)
                    &&& free_bytes_of(final(self)@) == free_bytes_of(old(self)@) + SLOT_SIZE
                    &&& frag_bytes_of(final(self)@) == frag_bytes_of(old(self)@) + entry_of(
                        old(self)@,
                        slot as int,
                    ).1
                    &&& page_type_of(final(self)@) == page_type_of(old(self)@)
                    &&& link_of(final(self)@) == link_of(old(self)@)
                },
                Err(Error::NoSuchSlot(x)) => {
                    &&& x == slot
                    &&& slot >= slot_count_of(old(self)@)
                    &&& final(self)@ == old(self)@
                },
                _ => false,
            },
    {
        proof {
            if !slotted_wf(self@) {
                lemma_zero_page_layout();
            }
        }
        let n = self.slot_count();
        // can't remove a thing which does not exist
        if slot >= n {
            return Err(Error::NoSuchSlot(slot));
        }
        let ghost s0 = self@;
        let (_, len) = self.read_slot(slot);
        let free = self.free_space();
        let frag = self.frag_space();
        proof {
            lemma_total_len_remove(records_of(s0), slot as int);
            lemma_total_len_nonneg(records_of(s0).remove(slot as int));
            assert(entry_fits(entry_of(s0, slot as int), free_ptr_of(s0) as int));
            assert(records_of(s0)[slot as int] == record_at(s0, entry_of(s0, slot as int)));
        }
        let mut i = slot + 1;
        while i < n
            invariant
                slotted_wf(s0),
                slot < n,
                n == slot_count_of(s0),
                slot + 1 <= i <= n,
                self@.len() == PAGE_SIZE,
                forall|x: int| 0 <= x < entry_pos(slot as int) ==> #[trigger] self@[x] == s0[x],
                forall|x: int| entry_pos(i - 1) <= x < PAGE_SIZE ==> #[trigger] self@[x] == s0[x],
                forall|m: int|
                    slot <= m < i - 1 ==> #[trigger] entry_of(self@, m) == entry_of(s0, m + 1),
            decreases n - i,
        {
            let (offset, l) = self.read_slot(i);
            let ghost before = self@;
            self.write_slot(i - 1, offset, l);
            assert forall|m: int| slot <= m < i implies #[trigger] entry_of(self@, m) == entry_of(
                s0,
                m + 1,
            ) by {
                if m < i - 1 {
                    assert(entry_of(self@, m) == entry_of(before, m));
                }
            }
            i = i + 1;
        }
        let ghost s1 = self@;
        self.write_u16(OFF_FREE_BYTES, (free + SLOT_SIZE) as u16);
        let ghost s2 = self@;
        self.write_u16(OFF_FRAG_BYTES, (frag + len as usize) as u16);
        let ghost s3 = self@;
        self.write_u16(OFF_SLOT_COUNT, n - 1);
        proof {
            lemma_remove_bytes(s0, s1, s2, s3, self@, slot as int);
            lemma_remove_layout(s0, self@, slot as int);
        }
        Ok(())
    }
}

/// The bytes after `remove_slot_at`'s writes.
#[verifier::rlimit(40)]
proof fn lemma_remove_bytes(s0: Seq<u8>, s1: Seq<u8>, s2: Seq<u8>, s3: Seq<u8>, t: Seq<u8>, slot: int)
    requires
        slotted_wf(s0),
        0 <= slot < slot_count_of(s0),
        s1.len() == PAGE_SIZE,
        forall|x: int| 0 <= x < entry_pos(slot) ==> #[trigger] s1[x] == s0[x],
        forall|x: int| entry_pos(slot_count_of(s0) - 1) <= x < PAGE_SIZE ==> #[trigger] s1[x] == s0[x],
        forall|m: int|
            slot <= m < slot_count_of(s0) - 1 ==> #[trigger] entry_of(s1, m) == entry_of(s0, m + 1),
        s2 == splice(s1, OFF_FREE_BYTES as int, le16((free_bytes_of(s0) + SLOT_SIZE) as u16)),
        s3 == splice(
            s2,
            OFF_FRAG_BYTES as int,
            le16((frag_bytes_of(s0) + entry_of(s0, slot).1) as u16),
        ),
        t == splice(s3, OFF_SLOT_COUNT as int, le16((slot_count_of(s0) - 1) as u16)),
        frag_bytes_of(s0) + entry_of(s0, slot).1 <= PAGE_SIZE,
    ensures
        t.len() == PAGE_SIZE,
        slot_count_of(t) == slot_count_of(s0) - 1,
        free_ptr_of(t) == free_ptr_of(s0),
        free_bytes_of(t) == free_bytes_of(s0) + SLOT_SIZE,
        frag_bytes_of(t) == frag_bytes_of(s0) + entry_of(s0, slot).1,
        page_type_of(t) == page_type_of(s0),
        link_of(t) == link_of(s0),
        forall|x: int| free_ptr_of(s0) <= x < PAGE_SIZE ==> #[trigger] t[x] == s0[x],
        forall|m: int| 0 <= m < slot ==> #[trigger] entry_of(t, m) == entry_of(s0, m),
        forall|m: int|
            slot <= m < slot_count_of(s0) - 1 ==> #[trigger] entry_of(t, m) == entry_of(s0, m + 1),
{
    let n = slot_count_of(s0) as int;
    assert forall|m: int| slot <= m < n - 1 implies #[trigger] entry_of(t, m) == entry_of(s0, m + 1) by {
        assert(entry_of(s1, m) == entry_of(s0, m + 1));
    }
}

/// The layout that `remove_slot_at` leaves, from the bytes it left.
#[verifier::rlimit(40)]
proof fn lemma_remove_layout(s0: Seq<u8>, t: Seq<u8>, slot: int)
    requires
        slotted_wf(s0),
        0 <= slot < slot_count_of(s0),
        t.len() == PAGE_SIZE,
        slot_count_of(t) == slot_count_of(s0) - 1,
        free_ptr_of(t) == free_ptr_of(s0),
        free_bytes_of(t) == free_bytes_of(s0) + SLOT_SIZE,
        frag_bytes_of(t) == frag_bytes_of(s0) + entry_of(s0, slot).1,
        forall|x: int| free_ptr_of(s0) <= x < PAGE_SIZE ==> #[trigger] t[x] == s0[x],
        forall|m: int| 0 <= m < slot ==> #[trigger] entry_of(t, m) == entry_of(s0, m),
        forall|m: int|
            slot <= m < slot_count_of(s0) - 1 ==> #[trigger] entry_of(t, m) == entry_of(s0, m + 1),
    ensures
        slotted_wf(t),
        records_of(t) == records_of(s0).remove(slot),
        entries_of(t) == entries_of(s0).remove(slot),
{
    let n = slot_count_of(s0) as int;
    let fp = free_ptr_of(s0) as int;
    assert(entries_of(t) =~= entries_of(s0).remove(slot));
    assert forall|m: int| 0 <= m < n - 1 implies #[trigger] records_of(t)[m] == records_of(
        s0,
    ).remove(slot)[m] by {
        if m < slot {
            lemma_record_at_agree(s0, t, entry_of(s0, m), fp);
        } else {
            lemma_record_at_agree(s0, t, entry_of(s0, m + 1), fp);
        }
    }
    assert(records_of(t) =~= records_of(s0).remove(slot));
    lemma_total_len_remove(records_of(s0), slot);
    assert(entry_fits(entry_of(s0, slot), fp));
    assert forall|m: int| 0 <= m < n - 1 implies entry_fits(#[trigger] entry_of(t, m), fp) by {
        if m < slot {
            assert(entry_fits(entry_of(s0, m), fp));
        } else {
            assert(entry_fits(entry_of(s0, m + 1), fp));
        }
    }
    assert forall|i: int, j: int|
        0 <= i < n - 1 && 0 <= j < n - 1 && i != j implies entries_disjoint(
        #[trigger] entry_of(t, i),
        #[trigger] entry_of(t, j),
    ) by {
        let oi = if i < slot { i } else { i + 1 };
        let oj = if j < slot { j } else { j + 1 };
        assert(entries_disjoint(entry_of(s0, oi), entry_of(s0, oj)));
    }
}

/// The bytes of a record, or nothing for a tombstone.
pub open spec fn bytes_or_empty(r: Option<Seq<u8>>) -> Seq<u8> {
    match r {
        Some(b) => b,
        None => Seq::empty(),
    }
}

impl Page {
    /// Rewrites the live records back to back at the end of the page, so the
    /// stranded bytes become free space. Slots and their order stay as they
    /// are, tombstones included.
    #[verifier::rlimit(60)]
    pub fn compact(&mut self)
        requires
            slotted_wf(old(self)@),
        ensures
            slotted_wf(final(self)@),
            records_of(final(self)@) == records_of(old(self)@),
            slot_count_of(final(self)@) == slot_count_of(old(self)@),
            frag_bytes_of(final(self)@) == 0,
            free_ptr_of(final(self)@) == PAGE_SIZE - total_len(records_of(old(self)@)),
            free_bytes_of(final(self)@) == PAGE_SIZE - HEADER_SIZE - SLOT_SIZE * slot_count_of(
                old(self)@,
            ) - total_len(records_of(old(self)@)),
            page_type_of(final(self)@) == page_type_of(old(self)@),
            link_of(final(self)@) == link_of(old(self)@),
    {
        let ghost s0 = self@;
        let ghost rs = records_of(s0);
        let n = self.slot_count();
        proof {
            lemma_total_len_nonneg(rs);
        }
        let mut recs: Vec<Vec<u8>> = Vec::new();
        let mut i: u16 = 0;
        while i < n
            invariant
                slotted_wf(s0),
                self@ == s0,
                rs == records_of(s0),
                n == slot_count_of(s0),
                0 <= i <= n,
                recs@.len() == i,
                forall|m: int| 0 <= m < i ==> (#[trigger] recs@[m])@ == bytes_or_empty(rs[m]),
            decreases n - i,
        {
            let (offset, len) = self.read_slot(i);
            assert(entry_fits(entry_of(s0, i as int), free_ptr_of(s0) as int));
            if offset != 0 {
                let bytes = vstd::slice::slice_to_vec(self.read_bytes(offset as usize, len as usize));
                recs.push(bytes);
            } else {
                recs.push(Vec::new());
            }
            i = i + 1;
        }
        let mut fp: usize = PAGE_SIZE;
        i = 0;
        while i < n
            invariant
                slotted_wf(s0),
                rs == records_of(s0),
                n == slot_count_of(s0),
                0 <= i <= n,
                recs@.len() == n,
                forall|m: int| 0 <= m < n ==> (#[trigger] recs@[m])@ == bytes_or_empty(rs[m]),
                fp == PAGE_SIZE - total_len(rs.subrange(0, i as int)),
                total_len(rs) + entry_pos(n as int) <= PAGE_SIZE,
                self@.len() == PAGE_SIZE,
                forall|x: int| 0 <= x < HEADER_SIZE ==> #[trigger] self@[x] == s0[x],
                forall|m: int| i <= m < n ==> #[trigger] entry_of(self@, m) == entry_of(s0, m),
                forall|m: int|
                    0 <= m < i ==> entry_fits(#[trigger] entry_of(self@, m), fp as int),
                forall|m: int|
                    0 <= m < i ==> #[trigger] record_at(self@, entry_of(self@, m)) == rs[m],
                forall|m1: int, m2: int|
                    0 <= m1 < i && 0 <= m2 < i && m1 != m2 ==> entries_disjoint(
                        #[trigger] entry_of(self@, m1),
                        #[trigger] entry_of(self@, m2),
                    ),
            decreases n - i,
        {
            let (offset, _) = self.read_slot(i);
            proof {
                lemma_total_len_prefix(rs, i as int);
                lemma_total_len_prefix_le(rs, i as int + 1);
                lemma_total_len_nonneg(rs.subrange(0, i as int));
                assert(entry_fits(entry_of(s0, i as int), free_ptr_of(s0) as int));
                assert(rs[i as int] == record_at(s0, entry_of(s0, i as int)));
            }
            if offset != 0 {
                let len = recs[i as usize].len();
                let ghost before = self@;
                assert(rs[i as int] is Some);
                assert(len == opt_len(rs[i as int]));
                assert(fp - len >= entry_pos(n as int));
                fp = fp - len;
                self.write_bytes(fp, recs[i as usize].as_slice());
                self.write_slot(i, fp as u16, len as u16);
                proof {
                    assert forall|x: int| fp + len <= x < PAGE_SIZE implies #[trigger] self@[x]
                        == before[x] by {}
                    assert forall|m: int| 0 <= m < i implies #[trigger] record_at(
                        self@,
                        entry_of(self@, m),
                    ) == rs[m] by {
                        assert(entry_of(self@, m) == entry_of(before, m));
                        lemma_record_at_agree(before, self@, entry_of(before, m), fp + len);
                    }
                    assert(self@.subrange(fp as int, fp + len) =~= recs@[i as int]@);
                }
                assert forall|m: int| i < m < n implies #[trigger] entry_of(self@, m) == entry_of(
                    s0,
                    m,
                ) by {
                    assert(entry_of(before, m) == entry_of(s0, m));
                }
                assert forall|m: int| 0 <= m <= i implies entry_fits(
                    #[trigger] entry_of(self@, m),
                    fp as int,
                ) by {
                    if m < i {
                        assert(entry_of(self@, m) == entry_of(before, m));
                        assert(entry_fits(entry_of(before, m), fp + len));
                    }
                }
                assert forall|m1: int, m2: int|
                    0 <= m1 <= i && 0 <= m2 <= i && m1 != m2 implies entries_disjoint(
                    #[trigger] entry_of(self@, m1),
                    #[trigger] entry_of(self@, m2),
                ) by {
                    if m1 < i {
                        assert(entry_of(self@, m1) == entry_of(before, m1));
                        assert(entry_fits(entry_of(before, m1), fp + len));
                    }
                    if m2 < i {
                        assert(entry_of(self@, m2) == entry_of(before, m2));
                        assert(entry_fits(entry_of(before, m2), fp + len));
                    }
                    if m1 < i && m2 < i {
                        assert(entries_disjoint(entry_of(before, m1), entry_of(before, m2)));
                    }
                }
            } else {
                assert(rs[i as int] is None);
                assert(entry_of(self@, i as int) == (0u16, 0u16));
            }
            i = i + 1;
        }
        let ghost s1 = self@;
        proof {
            assert(rs.subrange(0, n as int) =~= rs);
        }
        self.write_u16(OFF_FREE_PTR, fp as u16);
        self.write_u16(OFF_FREE_BYTES, (fp - HEADER_SIZE - SLOT_SIZE * n as usize) as u16);
        self.write_u16(OFF_FRAG_BYTES, 0);
        proof {
            let t = self@;
            assert(rs.subrange(0, n as int) =~= rs);
            assert(slot_count_of(t) == n);
            assert forall|m: int| 0 <= m < n implies #[trigger] entry_of(t, m) == entry_of(s1, m) by {}
            assert forall|m: int| 0 <= m < n implies #[trigger] records_of(t)[m] == rs[m] by {
                assert(entry_fits(entry_of(s1, m), fp as int));
                lemma_record_at_agree(s1, t, entry_of(s1, m), fp as int);
            }
            assert(records_of(t) =~= rs);
            assert forall|m: int| 0 <= m < n implies entry_fits(
                #[trigger] entry_of(t, m),
                free_ptr_of(t) as int,
            ) by {
                assert(entry_fits(entry_of(s1, m), fp as int));
            }
            assert forall|m1: int, m2: int|
                0 <= m1 < n && 0 <= m2 < n && m1 != m2 implies entries_disjoint(
                #[trigger] entry_of(t, m1),
                #[trigger] entry_of(t, m2),
            ) by {
                assert(entries_disjoint(entry_of(s1, m1), entry_of(s1, m2)));
            }
        }
    }

    /// Bytes that the live records take together with their slot entries.
    pub fn live_bytes(&self) -> (r: usize)
        requires
            slotted_wf(self@),
        ensures
            r == live_size(records_of(self@)),
    {
        let ghost rs = records_of(self@);
        let n = self.slot_count();
        proof {
            lemma_total_len_nonneg(rs);
        }
        let mut total: usize = 0;
        let mut i: u16 = 0;
        while i < n
            invariant
                slotted_wf(self@),
                rs == records_of(self@),
                n == slot_count_of(self@),
                0 <= i <= n,
                total == live_size(rs.subrange(0, i as int)),
                live_size(rs) <= PAGE_SIZE,
            decreases n - i,
        {
            let (offset, len) = self.read_slot(i);
            proof {
                lemma_total_len_prefix(rs, i as int);
                lemma_total_len_prefix_le(rs, i as int + 1);
                assert(entry_fits(entry_of(self@, i as int), free_ptr_of(self@) as int));
                assert(rs[i as int] == record_at(self@, entry_of(self@, i as int)));
            }
            if offset != 0 {
                total = total + len as usize + SLOT_SIZE;
            }
            i = i + 1;
        }
        proof {
            assert(rs.subrange(0, n as int) =~= rs);
        }
        total
    }

    /// The records of every slot in order, or the first tombstone found.
    pub fn entries(&self) -> (r: Result<Vec<Vec<u8>>>)
        requires
            slotted_wf(self@),
        ensures
            match r {
                Ok(v) => {
                    &&& v@.len() == slot_count_of(self@)
                    &&& forall|i: int|
                        0 <= i < v@.len() ==> records_of(self@)[i] == Some(#[trigger] v@[i]@)
                },
                Err(Error::SlotDeleted(x)) => x < slot_count_of(self@)
                    && records_of(self@)[x as int] is None,
                _ => false,
            },
    {
        let n = self.slot_count();
        let mut out: Vec<Vec<u8>> = Vec::new();
        let mut i: u16 = 0;
        while i < n
            invariant
                slotted_wf(self@),
                n == slot_count_of(self@),
                0 <= i <= n,
                out@.len() == i,
                forall|m: int| 0 <= m < i ==> records_of(self@)[m] == Some(#[trigger] out@[m]@),
            decreases n - i,
        {
            match self.slot_bytes(i) {
                Ok(bytes) => out.push(vstd::slice::slice_to_vec(bytes)),
                Err(e) => return Err(e),
            }
            i = i + 1;
        }
        Ok(out)
    }

    /// Writes `bytes` over the record in `slot`, which has the same length.
    pub fn overwrite_slot(&mut self, slot: SlotId, bytes: &[u8]) -> (r: Result<()>)
        requires
            slotted_wf(old(self)@),
            slot < slot_count_of(old(self)@) && records_of(old(self)@)[slot as int] is Some
                ==> records_of(old(self)@)[slot as int]->0.len() == bytes@.len(),
        ensures
            match r {
                Ok(()) => {
                    &&& slot < slot_count_of(old(self)@)
                    &&& records_of(old(self)@)[slot as int] is Some
                    &&& records_of(final(self)@) == records_of(old(self)@).update(
                        slot as int,
                        Some(bytes@),
                    )
                    &&& entries_of(final(self)@) == entries_of(old(self)@)
                    &&& slotted_wf(final(self)@)
                    &&& same_header(old(self)@, final(self)@)
                },
                Err(Error::NoSuchSlot(x)) => x == slot && slot >= slot_count_of(old(self)@)
                    && final(self)@ == old(self)@,
                Err(Error::SlotDeleted(x)) => x == slot && slot < slot_count_of(old(self)@)
                    && records_of(old(self)@)[slot as int] is None && final(self)@ == old(self)@,
                _ => false,
            },
    {
        if slot >= self.slot_count() {
            return Err(Error::NoSuchSlot(slot));
        }
        let (offset, len) = self.read_slot(slot);
        if offset == 0 {
            return Err(Error::SlotDeleted(slot));
        }
        let ghost s0 = self@;
        proof {
            assert(entry_fits(entry_of(s0, slot as int), free_ptr_of(s0) as int));
            assert(records_of(s0)[slot as int] == record_at(s0, entry_of(s0, slot as int)));
        }
        self.write_bytes(offset as usize, bytes);
        proof {
            let t = self@;
            let n = slot_count_of(s0) as int;
            let e = entry_of(s0, slot as int);
            assert(same_header(s0, t));
            assert forall|m: int| 0 <= m < n implies #[trigger] entry_of(t, m) == entry_of(s0, m) by {}
            assert(entries_of(t) =~= entries_of(s0));
            assert forall|m: int| 0 <= m < n implies #[trigger] records_of(t)[m] == records_of(
                s0,
            ).update(slot as int, Some(bytes@))[m] by {
                let f = entry_of(s0, m);
                if m == slot {
                    assert(t.subrange(e.0 as int, e.0 + e.1) =~= bytes@);
                } else if f.0 != 0 {
                    assert(entries_disjoint(e, f));
                    assert(entry_fits(f, free_ptr_of(s0) as int));
                    assert(t.subrange(f.0 as int, f.0 + f.1) =~= s0.subrange(f.0 as int, f.0 + f.1));
                }
            }
            assert(records_of(t) =~= records_of(s0).update(slot as int, Some(bytes@)));
            lemma_total_len_update(records_of(s0), slot as int, Some(bytes@));
            assert forall|m: int| 0 <= m < n implies entry_fits(
                #[trigger] entry_of(t, m),
                free_ptr_of(t) as int,
            ) by {
                assert(entry_fits(entry_of(s0, m), free_ptr_of(s0) as int));
            }
            assert forall|m1: int, m2: int|
                0 <= m1 < n && 0 <= m2 < n && m1 != m2 implies entries_disjoint(
                #[trigger] entry_of(t, m1),
                #[trigger] entry_of(t, m2),
            ) by {
                assert(entries_disjoint(entry_of(s0, m1), entry_of(s0, m2)));
            }
        }
        Ok(())
    }
}

/// No record of a well-formed page is longer than `MAX_RECORD`.
pub proof fn lemma_record_len(s: Seq<u8>, i: int)
    requires
        slotted_wf(s),
        0 <= i < slot_count_of(s),
    ensures
        opt_len(records_of(s)[i]) <= MAX_RECORD,
{
    assert(entry_fits(entry_of(s, i), free_ptr_of(s) as int));
}

/// A page that is either a well-formed slotted page or still all zeros, as
/// every page is between allocation and initialization.
pub open spec fn page_ok(s: Seq<u8>) -> bool {
    slotted_wf(s) || s == zero_page()
}

/// Every page after the meta page is a slotted page or untouched.
pub open spec fn pages_ok(pages: Seq<Seq<u8>>) -> bool {
    forall|p: int| 1 <= p < pages.len() ==> page_ok(#[trigger] pages[p])
}

/// A zeroed page has no slots and no free space, so it takes no record.
pub proof fn lemma_zero_page_layout()
    ensures
        slot_count_of(zero_page()) == 0,
        free_ptr_of(zero_page()) == 0,
        free_bytes_of(zero_page()) == 0,
        frag_bytes_of(zero_page()) == 0,
        !slotted_wf(zero_page()),
{
    assert(u16_of_bytes(0, 0) == 0) by (bit_vector);
    assert(zero_page()[14] == 0 && zero_page()[15] == 0 && zero_page()[16] == 0 && zero_page()[17]
        == 0 && zero_page()[18] == 0 && zero_page()[19] == 0 && zero_page()[20] == 0
        && zero_page()[21] == 0);
}

impl Page {
    /// Whether the page is a well-formed slotted page, checked byte by byte.
    pub fn check_slotted(&self) -> (r: bool)
        ensures
            r == slotted_wf(self@),
    {
        let n = self.slot_count() as usize;
        let fp = self.read_u16(OFF_FREE_PTR) as usize;
        let free = self.free_space();
        let frag = self.frag_space();
        if fp > PAGE_SIZE || n > MAX_SLOTS || HEADER_SIZE + SLOT_SIZE * n > fp || free != fp
            - HEADER_SIZE - SLOT_SIZE * n {
            return false;
        }
        let ghost rs = records_of(self@);
        let mut total: usize = 0;
        let mut i: usize = 0;
        while i < n
            invariant
                n == slot_count_of(self@),
                fp == free_ptr_of(self@),
                HEADER_SIZE + SLOT_SIZE * n <= fp <= PAGE_SIZE,
                rs == records_of(self@),
                0 <= i <= n,
                forall|m: int| 0 <= m < i ==> entry_fits(#[trigger] entry_of(self@, m), fp as int),
                total == total_len(rs.subrange(0, i as int)),
                total <= PAGE_SIZE * i,
            decreases n - i,
        {
            let (offset, len) = self.read_slot(i as u16);
            let fits = (offset == 0 && len == 0) || (fp <= offset as usize && offset as usize
                + len as usize <= PAGE_SIZE);
            if !fits {
                assert(!slotted_wf(self@)) by {
                    if slotted_wf(self@) {
                        assert(entry_fits(entry_of(self@, i as int), fp as int));
                    }
                }
                return false;
            }
            proof {
                lemma_total_len_prefix(rs, i as int);
            }
            if offset != 0 {
                total = total + len as usize;
            }
            i = i + 1;
        }
        proof {
            assert(rs.subrange(0, n as int) =~= rs);
        }
        if frag + total > PAGE_SIZE - fp {
            return false;
        }
        let mut a: usize = 0;
        while a < n
            invariant
                n == slot_count_of(self@),
                n <= MAX_SLOTS,
                0 <= a <= n,
                forall|i: int, j: int|
                    0 <= i < a && 0 <= j < n && i != j ==> entries_disjoint(
                        #[trigger] entry_of(self@, i),
                        #[trigger] entry_of(self@, j),
                    ),
            decreases n - a,
        {
            let (ao, al) = self.read_slot(a as u16);
            let mut b: usize = 0;
            while b < n
                invariant
                    n == slot_count_of(self@),
                    n <= MAX_SLOTS,
                    0 <= a < n,
                    0 <= b <= n,
                    (ao, al) == entry_of(self@, a as int),
                    forall|i: int, j: int|
                        0 <= i < a && 0 <= j < n && i != j ==> entries_disjoint(
                            #[trigger] entry_of(self@, i),
                            #[trigger] entry_of(self@, j),
                        ),
                    forall|j: int|
                        0 <= j < b && a != j ==> entries_disjoint(
                            entry_of(self@, a as int),
                            #[trigger] entry_of(self@, j),
                        ),
                decreases n - b,
            {
                let (bo, bl) = self.read_slot(b as u16);
                if a != b && ao != 0 && bo != 0 && (ao as usize) + (al as usize) > bo as usize && (
                bo as usize) + (bl as usize) > ao as usize {
                    assert(!slotted_wf(self@)) by {
                        if slotted_wf(self@) {
                            assert(entries_disjoint(
                                entry_of(self@, a as int),
                                entry_of(self@, b as int),
                            ));
                        }
                    }
                    return false;
                }
                b = b + 1;
            }
            a = a + 1;
        }
        true
    }

    /// Whether a page known to be slotted or zeroed is the slotted kind.
    pub fn is_initialized(&self) -> (r: bool)
        requires
            page_ok(self@),
        ensures
            r == slotted_wf(self@),
    {
        assert(u16_of_bytes(0, 0) == 0) by (bit_vector);
        self.read_u16(OFF_FREE_PTR) != 0
    }
}

/// The header fields that record operations do not touch agree.
pub open spec fn same_header(s: Seq<u8>, t: Seq<u8>) -> bool {
    &&& slot_count_of(t) == slot_count_of(s)
    &&& free_ptr_of(t) == free_ptr_of(s)
    &&& free_bytes_of(t) == free_bytes_of(s)
    &&& frag_bytes_of(t) == frag_bytes_of(s)
    &&& page_type_of(t) == page_type_of(s)
    &&& link_of(t) == link_of(s)
}

/// `u16_of` under a name local to this module, for bit-vector proofs.
pub open spec fn u16_of_bytes(b0: u8, b1: u8) -> u16 {
    crate::page::u16_of(b0, b1)
}

} // verus!
