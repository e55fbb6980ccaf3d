pub mod meta;
pub mod slotted;

use vstd::prelude::*;

verus! {

/// Size of every page, in memory and on disk.
pub const PAGE_SIZE: usize = 4096;

/// `s` with the bytes `b` written over it from position `off` on.
pub open spec fn splice(s: Seq<u8>, off: int, b: Seq<u8>) -> Seq<u8> {
    s.subrange(0, off) + b + s.subrange(off + b.len(), s.len() as int)
}

/// The `u16` whose little-endian bytes are `b0, b1`.
pub open spec fn u16_of(b0: u8, b1: u8) -> u16 {
    (b0 as u16) | ((b1 as u16) << 8u16)
}

/// The `u32` whose little-endian bytes are `b0 .. b3`.
pub open spec fn u32_of(b0: u8, b1: u8, b2: u8, b3: u8) -> u32 {
    (b0 as u32) | ((b1 as u32) << 8u32) | ((b2 as u32) << 16u32) | ((b3 as u32) << 24u32)
}

/// The `u64` whose little-endian bytes are `b0 .. b7`.
pub open spec fn u64_of(b0: u8, b1: u8, b2: u8, b3: u8, b4: u8, b5: u8, b6: u8, b7: u8) -> u64 {
    (b0 as u64) | ((b1 as u64) << 8u64) | ((b2 as u64) << 16u64) | ((b3 as u64) << 24u64) | ((
    b4 as u64) << 32u64) | ((b5 as u64) << 40u64) | ((b6 as u64) << 48u64) | ((b7 as u64)
        << 56u64)
}

/// Little-endian bytes of a `u16`.
pub open spec fn le16(v: u16) -> Seq<u8> {
    seq![(v & 0xff) as u8, ((v >> 8u16) & 0xff) as u8]
}

/// Little-endian bytes of a `u32`.
pub open spec fn le32(v: u32) -> Seq<u8> {
    seq![
        (v & 0xff) as u8,
        ((v >> 8u32) & 0xff) as u8,
        ((v >> 16u32) & 0xff) as u8,
        ((v >> 24u32) & 0xff) as u8,
    ]
}

/// Little-endian bytes of a `u64`.
pub open spec fn le64(v: u64) -> Seq<u8> {
    seq![
        (v & 0xff) as u8,
        ((v >> 8u64) & 0xff) as u8,
        ((v >> 16u64) & 0xff) as u8,
        ((v >> 24u64) & 0xff) as u8,
        ((v >> 32u64) & 0xff) as u8,
        ((v >> 40u64) & 0xff) as u8,
        ((v >> 48u64) & 0xff) as u8,
        ((v >> 56u64) & 0xff) as u8,
    ]
}

/// The little-endian `u16` stored at `off`.
pub open spec fn le_u16(s: Seq<u8>, off: int) -> u16 {
    u16_of(s[off], s[off + 1])
}

/// The little-endian `u32` stored at `off`.
pub open spec fn le_u32(s: Seq<u8>, off: int) -> u32 {
    u32_of(s[off], s[off + 1], s[off + 2], s[off + 3])
}

/// The little-endian `u64` stored at `off`.
pub open spec fn le_u64(s: Seq<u8>, off: int) -> u64 {
    u64_of(s[off], s[off + 1], s[off + 2], s[off + 3], s[off + 4], s[off + 5], s[off + 6], s[off + 7])
}

/// Decoding the encoding of a `u16` gives it back.
pub broadcast proof fn lemma_le16_round_trip(v: u16)
    ensures
        #[trigger] le16(v).len() == 2,
        u16_of(le16(v)[0], le16(v)[1]) == v,
{
    let b0 = (v & 0xff) as u8;
    let b1 = ((v >> 8u16) & 0xff) as u8;
    assert(u16_of(b0, b1) == v) by (bit_vector)
        requires
            b0 == (v & 0xff) as u8,
            b1 == ((v >> 8u16) & 0xff) as u8,
    ;
}

/// Decoding the encoding of a `u32` gives it back.
pub broadcast proof fn lemma_le32_round_trip(v: u32)
    ensures
        #[trigger] le32(v).len() == 4,
        u32_of(le32(v)[0], le32(v)[1], le32(v)[2], le32(v)[3]) == v,
{
    let b0 = (v & 0xff) as u8;
    let b1 = ((v >> 8u32) & 0xff) as u8;
    let b2 = ((v >> 16u32) & 0xff) as u8;
    let b3 = ((v >> 24u32) & 0xff) as u8;
    assert(u32_of(b0, b1, b2, b3) == v) by (bit_vector)
        requires
            b0 == (v & 0xff) as u8,
            b1 == ((v >> 8u32) & 0xff) as u8,
            b2 == ((v >> 16u32) & 0xff) as u8,
            b3 == ((v >> 24u32) & 0xff) as u8,
    ;
}

/// Decoding the encoding of a `u64` gives it back.
pub broadcast proof fn lemma_le64_round_trip(v: u64)
    ensures
        #[trigger] le64(v).len() == 8,
        u64_of(
            le64(v)[0],
            le64(v)[1],
            le64(v)[2],
            le64(v)[3],
            le64(v)[4],
            le64(v)[5],
            le64(v)[6],
            le64(v)[7],
        ) == v,
{
    let b0 = (v & 0xff) as u8;
    let b1 = ((v >> 8u64) & 0xff) as u8;
    let b2 = ((v >> 16u64) & 0xff) as u8;
    let b3 = ((v >> 24u64) & 0xff) as u8;
    let b4 = ((v >> 32u64) & 0xff) as u8;
    let b5 = ((v >> 40u64) & 0xff) as u8;
    let b6 = ((v >> 48u64) & 0xff) as u8;
    let b7 = ((v >> 56u64) & 0xff) as u8;
    assert(u64_of(b0, b1, b2, b3, b4, b5, b6, b7) == v) by (bit_vector)
        requires
            b0 == (v & 0xff) as u8,
            b1 == ((v >> 8u64) & 0xff) as u8,
            b2 == ((v >> 16u64) & 0xff) as u8,
            b3 == ((v >> 24u64) & 0xff) as u8,
            b4 == ((v >> 32u64) & 0xff) as u8,
            b5 == ((v >> 40u64) & 0xff) as u8,
            b6 == ((v >> 48u64) & 0xff) as u8,
            b7 == ((v >> 56u64) & 0xff) as u8,
    ;
}

/// Writing `b` at `off` keeps the length, puts `b` at `off`, and keeps
/// every other byte.
pub broadcast proof fn lemma_splice_index(s: Seq<u8>, off: int, b: Seq<u8>, x: int)
    requires
        0 <= off,
        off + b.len() <= s.len(),
        0 <= x < s.len(),
    ensures
        #[trigger] splice(s, off, b)[x] == if off <= x < off + b.len() {
            b[x - off]
        } else {
            s[x]
        },
{
}

/// Writing within a sequence keeps its length.
pub broadcast proof fn lemma_splice_len(s: Seq<u8>, off: int, b: Seq<u8>)
    requires
        0 <= off,
        off + b.len() <= s.len(),
    ensures
        #[trigger] splice(s, off, b).len() == s.len(),
{
}

pub broadcast group group_bytes {
    lemma_le16_round_trip,
    lemma_le32_round_trip,
    lemma_le64_round_trip,
    lemma_splice_index,
    lemma_splice_len,
}

/// Number of a page; page `n` starts at byte `n * PAGE_SIZE` of the file.
#[derive(Debug, Clone, Copy, PartialEq, Eq, PartialOrd, Ord, Hash, Structural)]
pub struct PageId(pub u64);

impl PageId {
    /// Byte offset of the page in the file.
    pub fn offset(self) -> (r: u64)
        requires
            self.0 * 4096 <= u64::MAX,
        ensures
            r == self.0 * 4096,
    {
        self.0 * 4096
    }
}

/// Where a record lives: a page and a slot in it.
#[derive(Debug, Clone, Copy, PartialEq, Eq, PartialOrd, Ord, Hash, Structural)]
pub struct RecordId {
    pub page: PageId,
    pub slot: u16,
}

/// The ten bytes that stand for a record id: the page as a little-endian
/// `u64`, then the slot as a little-endian `u16`.
pub open spec fn record_id_bytes(r: RecordId) -> Seq<u8> {
    le64(r.page.0) + le16(r.slot)
}

/// The record id that the ten bytes of `s` from `off` on stand for.
pub open spec fn record_id_at(s: Seq<u8>, off: int) -> RecordId {
    RecordId { page: PageId(le_u64(s, off)), slot: le_u16(s, off + 8) }
}

/// Decoding an encoded record id gives it back.
pub proof fn lemma_record_id_round_trip(r: RecordId)
    ensures
        record_id_bytes(r).len() == 10,
        record_id_at(record_id_bytes(r), 0) == r,
{
    broadcast use group_bytes;

    let b = record_id_bytes(r);
    assert(b[8] == le16(r.slot)[0]);
    assert(b[9] == le16(r.slot)[1]);
}

impl RecordId {
    /// Length of the encoding.
    pub const SIZE: usize = 10;

    /// The ten-byte encoding of the record id.
    pub fn to_bytes(self) -> (raw: [u8; 10])
        ensures
            raw@ == record_id_bytes(self),
    {
        let p = self.page.0;
        let q = self.slot;
        let raw: [u8; 10] = [
            (p & 0xff) as u8,
            ((p >> 8u64) & 0xff) as u8,
            ((p >> 16u64) & 0xff) as u8,
            ((p >> 24u64) & 0xff) as u8,
            ((p >> 32u64) & 0xff) as u8,
            ((p >> 40u64) & 0xff) as u8,
            ((p >> 48u64) & 0xff) as u8,
            ((p >> 56u64) & 0xff) as u8,
            (q & 0xff) as u8,
            ((q >> 8u16) & 0xff) as u8,
        ];
        assert(raw@ =~= record_id_bytes(self));
        raw
    }

    /// Decodes the ten bytes of `raw` from `off` on.
    pub fn read_from(raw: &[u8], off: usize) -> (r: RecordId)
        requires
            off + 10 <= raw@.len(),
        ensures
            r == record_id_at(raw@, off as int),
    {
        let _len = raw.len();
        RecordId { page: PageId(read_le_u64(raw, off)), slot: read_le_u16(raw, off + 8) }
    }

    /// Decodes the first ten bytes of `raw`.
    pub fn from_bytes(raw: &[u8]) -> (r: RecordId)
        requires
            raw@.len() >= 10,
        ensures
            r == record_id_at(raw@, 0),
    {
        Self::read_from(raw, 0)
    }
}

/// The little-endian `u16` at `off` in `raw`.
pub fn read_le_u16(raw: &[u8], off: usize) -> (r: u16)
    requires
        off + 2 <= raw@.len(),
    ensures
        r == le_u16(raw@, off as int),
{
    (raw[off] as u16) | ((raw[off + 1] as u16) << 8u16)
}

/// The little-endian `u32` at `off` in `raw`.
pub fn read_le_u32(raw: &[u8], off: usize) -> (r: u32)
    requires
        off + 4 <= raw@.len(),
    ensures
        r == le_u32(raw@, off as int),
{
    (raw[off] as u32) | ((raw[off + 1] as u32) << 8u32) | ((raw[off + 2] as u32) << 16u32) | ((
    raw[off + 3] as u32) << 24u32)
}

/// The little-endian `u64` at `off` in `raw`.
pub fn read_le_u64(raw: &[u8], off: usize) -> (r: u64)
    requires
        off + 8 <= raw@.len(),
    ensures
        r == le_u64(raw@, off as int),
{
    (raw[off] as u64) | ((raw[off + 1] as u64) << 8u64) | ((raw[off + 2] as u64) << 16u64) | ((
    raw[off + 3] as u64) << 24u64) | ((raw[off + 4] as u64) << 32u64) | ((raw[off + 5] as u64)
        << 40u64) | ((raw[off + 6] as u64) << 48u64) | ((raw[off + 7] as u64) << 56u64)
}

/// The little-endian bytes of `v`.
pub fn u16_bytes(v: u16) -> (r: [u8; 2])
    ensures
        r@ == le16(v),
{
    let r = [(v & 0xff) as u8, ((v >> 8u16) & 0xff) as u8];
    assert(r@ =~= le16(v));
    r
}

/// The little-endian bytes of `v`.
pub fn u32_bytes(v: u32) -> (r: [u8; 4])
    ensures
        r@ == le32(v),
{
    let r = [
        (v & 0xff) as u8,
        ((v >> 8u32) & 0xff) as u8,
        ((v >> 16u32) & 0xff) as u8,
        ((v >> 24u32) & 0xff) as u8,
    ];
    assert(r@ =~= le32(v));
    r
}

/// The little-endian bytes of `v`.
pub fn u64_bytes(v: u64) -> (r: [u8; 8])
    ensures
        r@ == le64(v),
{
    let r = [
        (v & 0xff) as u8,
        ((v >> 8u64) & 0xff) as u8,
        ((v >> 16u64) & 0xff) as u8,
        ((v >> 24u64) & 0xff) as u8,
        ((v >> 32u64) & 0xff) as u8,
        ((v >> 40u64) & 0xff) as u8,
        ((v >> 48u64) & 0xff) as u8,
        ((v >> 56u64) & 0xff) as u8,
    ];
    assert(r@ =~= le64(v));
    r
}

/// One page of bytes.
pub struct Page {
    data: [u8; PAGE_SIZE],
}

impl View for Page {
    type V = Seq<u8>;

    closed spec fn view(&self) -> Seq<u8> {
        self.data@
    }
}

/// Every page holds exactly `PAGE_SIZE` bytes.
pub broadcast proof fn lemma_page_len(p: &Page)
    ensures
        #[trigger] p@.len() == PAGE_SIZE,
{
}

impl Default for Page {
    /// A page of zeros.
    fn default() -> (p: Page)
        ensures
            p@ == zero_page(),
    {
        Page::new()
    }
}

/// The contents of a zeroed page.
pub open spec fn zero_page() -> Seq<u8> {
    Seq::new(PAGE_SIZE as nat, |i: int| 0u8)
}

impl Page {
    /// A page of zeros.
    pub fn new() -> (p: Page)
        ensures
            p@ == zero_page(),
    {
        let p = Page { data: [0u8; PAGE_SIZE] };
        assert(p@ =~= zero_page());
        p
    }

    /// A page holding `data`.
    pub fn from_bytes(data: [u8; PAGE_SIZE]) -> (p: Page)
        ensures
            p@ == data@,
    {
        Page { data }
    }

    /// All bytes of the page.
    pub fn as_bytes(&self) -> (r: &[u8])
        ensures
            r@ == self@,
    {
        self.data.as_slice()
    }

    /// A copy of the page.
    pub fn copy(&self) -> (p: Page)
        ensures
            p@ == self@,
    {
        Page { data: self.data }
    }

    pub fn read_u8(&self, offset: usize) -> (r: u8)
        requires
            offset < PAGE_SIZE,
        ensures
            r == self@[offset as int],
    {
        self.data[offset]
    }

    pub fn read_u16(&self, offset: usize) -> (r: u16)
        requires
            offset + 2 <= PAGE_SIZE,
        ensures
            r == le_u16(self@, offset as int),
    {
        read_le_u16(self.data.as_slice(), offset)
    }

    pub fn read_u32(&self, offset: usize) -> (r: u32)
        requires
            offset + 4 <= PAGE_SIZE,
        ensures
            r == le_u32(self@, offset as int),
    {
        read_le_u32(self.data.as_slice(), offset)
    }

    pub fn read_u64(&self, offset: usize) -> (r: u64)
        requires
            offset + 8 <= PAGE_SIZE,
        ensures
            r == le_u64(self@, offset as int),
    {
        read_le_u64(self.data.as_slice(), offset)
    }

    pub fn write_u8(&mut self, offset: usize, value: u8)
        requires
            offset < PAGE_SIZE,
        ensures
            final(self)@ == old(self)@.update(offset as int, value),
    {
        self.data[offset] = value;
    }

    pub fn write_u16(&mut self, offset: usize, value: u16)
        requires
            offset + 2 <= PAGE_SIZE,
        ensures
            final(self)@ == splice(old(self)@, offset as int, le16(value)),
    {
        let raw = u16_bytes(value);
        self.write_bytes(offset, raw.as_slice());
    }

    pub fn write_u32(&mut self, offset: usize, value: u32)
        requires
            offset + 4 <= PAGE_SIZE,
        ensures
            final(self)@ == splice(old(self)@, offset as int, le32(value)),
    {
        let raw = u32_bytes(value);
        self.write_bytes(offset, raw.as_slice());
    }

    pub fn write_u64(&mut self, offset: usize, value: u64)
        requires
            offset + 8 <= PAGE_SIZE,
        ensures
            final(self)@ == splice(old(self)@, offset as int, le64(value)),
    {
        let raw = u64_bytes(value);
        self.write_bytes(offset, raw.as_slice());
    }

    /// The `len` bytes from `offset` on.
    pub fn read_bytes(&self, offset: usize, len: usize) -> (r: &[u8])
        requires
            offset + len <= PAGE_SIZE,
        ensures
            r@ == self@.subrange(offset as int, offset + len),
    {
        vstd::slice::slice_subrange(self.data.as_slice(), offset, offset + len)
    }

    /// Writes `src` over the page from `offset` on.
    pub fn write_bytes(&mut self, offset: usize, src: &[u8])
        requires
            offset + src@.len() <= PAGE_SIZE,
        ensures
            final(self)@ == splice(old(self)@, offset as int, src@),
    {
        let mut i: usize = 0;
        while i < src.len()
            invariant
                offset + src@.len() <= PAGE_SIZE,
                0 <= i <= src@.len(),
                self@ == splice(old(self)@, offset as int, src@.subrange(0, i as int)),
            decreases src@.len() - i,
        {
            self.data[offset + i] = src[i];
            i = i + 1;
            assert(self@ =~= splice(old(self)@, offset as int, src@.subrange(0, i as int)));
        }
        assert(src@.subrange(0, i as int) =~= src@);
    }

    /// Whether every byte of the page is zero.
    pub fn is_zeroed(&self) -> (r: bool)
        ensures
            r == (self@ == zero_page()),
    {
        let mut i: usize = 0;
        while i < PAGE_SIZE
            invariant
                0 <= i <= PAGE_SIZE,
                forall|j: int| 0 <= j < i ==> #[trigger] self@[j] == 0,
            decreases PAGE_SIZE - i,
        {
            if self.data[i] != 0 {
                assert(self@[i as int] != zero_page()[i as int]);
                return false;
            }
            i = i + 1;
        }
        assert(self@ =~= zero_page());
        true
    }
}

} // verus!
