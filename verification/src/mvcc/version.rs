//! A version record: begin timestamp, end timestamp, the record id of the
//! previous version, then the value.
use crate::page::{
    group_bytes, le64, le_u64, record_id_at, record_id_bytes, splice, u64_bytes, PageId,
    RecordId,
};
use vstd::prelude::*;

verus! {

broadcast use group_bytes;

pub const OFF_BEGIN: usize = 0;

pub const OFF_END: usize = 8;

pub const OFF_PREV: usize = 16;

pub const VERSION_HEADER_SIZE: usize = 26;

/// The end timestamp of a version that nobody has replaced or deleted.
pub const NO_END: u64 = 0xffff_ffff_ffff_ffff;

/// The record id that stands for "no previous version": page 0 is the meta
/// page, so no version lives there.
pub open spec fn no_prev() -> RecordId {
    RecordId { page: PageId(0), slot: 0 }
}

/// The bytes of a fresh version.
pub open spec fn version_bytes(begin: u64, prev: Option<RecordId>, value: Seq<u8>) -> Seq<u8> {
    le64(begin) + le64(NO_END) + record_id_bytes(
        match prev {
            Some(p) => p,
            None => no_prev(),
        },
    ) + value
}

pub open spec fn version_begin_of(v: Seq<u8>) -> u64 {
    le_u64(v, OFF_BEGIN as int)
}

pub open spec fn version_end_of(v: Seq<u8>) -> u64 {
    le_u64(v, OFF_END as int)
}

pub open spec fn version_prev_of(v: Seq<u8>) -> Option<RecordId> {
    if record_id_at(v, OFF_PREV as int) == no_prev() {
        None
    } else {
        Some(record_id_at(v, OFF_PREV as int))
    }
}

pub open spec fn version_value_of(v: Seq<u8>) -> Seq<u8> {
    v.subrange(VERSION_HEADER_SIZE as int, v.len() as int)
}

/// Every field of a fresh version reads back as written. A previous version
/// at page 0, slot 0 reads back as none: that id means "no previous".
pub proof fn lemma_version_round_trip(begin: u64, prev: Option<RecordId>, value: Seq<u8>)
    ensures
        ({
            let v = version_bytes(begin, prev, value);
            &&& v.len() == VERSION_HEADER_SIZE + value.len()
            &&& version_begin_of(v) == begin
            &&& version_end_of(v) == NO_END
            &&& prev != Some(no_prev()) ==> version_prev_of(v) == prev
            &&& version_value_of(v) == value
        }),
{
    let p = match prev {
        Some(p) => p,
        None => no_prev(),
    };
    let v = version_bytes(begin, prev, value);
    let r = record_id_bytes(p);
    crate::page::lemma_record_id_round_trip(p);
    assert(v.subrange(16, 26) =~= r);
    assert(record_id_at(v, 16) == record_id_at(r, 0));
    assert(version_value_of(v) =~= value);
}

/// Stamping an end changes the end and nothing else.
pub proof fn lemma_set_end_keeps_the_rest(v: Seq<u8>, end: u64)
    requires
        v.len() >= VERSION_HEADER_SIZE,
    ensures
        ({
            let w = splice(v, OFF_END as int, le64(end));
            &&& w.len() == v.len()
            &&& version_end_of(w) == end
            &&& version_begin_of(w) == version_begin_of(v)
            &&& version_prev_of(w) == version_prev_of(v)
            &&& version_value_of(w) == version_value_of(v)
        }),
{
    let w = splice(v, OFF_END as int, le64(end));
    assert(version_value_of(w) =~= version_value_of(v));
}

/// A fresh version of `value`, created by `begin`, replacing `prev`.
pub fn encode_version(begin: u64, prev: Option<RecordId>, value: &[u8]) -> (entry: Vec<u8>)
    requires
        VERSION_HEADER_SIZE + value@.len() <= usize::MAX,
    ensures
        entry@ == version_bytes(begin, prev, value@),
{
    let mut entry: Vec<u8> = Vec::with_capacity(VERSION_HEADER_SIZE + value.len());
    entry.extend_from_slice(u64_bytes(begin).as_slice());
    entry.extend_from_slice(u64_bytes(NO_END).as_slice());
    let p = match prev {
        Some(p) => p,
        None => RecordId { page: PageId(0), slot: 0 },
    };
    entry.extend_from_slice(p.to_bytes().as_slice());
    entry.extend_from_slice(value);
    assert(entry@ =~= version_bytes(begin, prev, value@));
    entry
}

pub fn version_begin(version: &[u8]) -> (r: u64)
    requires
        version@.len() >= OFF_END,
    ensures
        r == version_begin_of(version@),
{
    crate::page::read_le_u64(version, OFF_BEGIN)
}

pub fn version_end(version: &[u8]) -> (r: u64)
    requires
        version@.len() >= OFF_PREV,
    ensures
        r == version_end_of(version@),
{
    crate::page::read_le_u64(version, OFF_END)
}

pub fn version_prev(version: &[u8]) -> (r: Option<RecordId>)
    requires
        version@.len() >= VERSION_HEADER_SIZE,
    ensures
        r == version_prev_of(version@),
{
    let rid = RecordId::read_from(version, OFF_PREV);
    if rid.page.0 == 0 && rid.slot == 0 {
        None
    } else {
        Some(rid)
    }
}

pub fn version_value(version: &[u8]) -> (r: &[u8])
    requires
        version@.len() >= VERSION_HEADER_SIZE,
    ensures
        r@ == version_value_of(version@),
{
    vstd::slice::slice_subrange(version, VERSION_HEADER_SIZE, version.len())
}

/// Stamps `end` into the version.
pub fn set_version_end(version: &mut Vec<u8>, end: u64)
    requires
        old(version)@.len() >= OFF_PREV,
    ensures
        final(version)@ == splice(old(version)@, OFF_END as int, le64(end)),
{
    let raw = u64_bytes(end);
    let mut i: usize = 0;
    while i < 8
        invariant
            old(version)@.len() >= OFF_PREV,
            0 <= i <= 8,
            raw@ == le64(end),
            version@ == splice(old(version)@, OFF_END as int, raw@.subrange(0, i as int)),
        decreases 8 - i,
    {
        version.set(OFF_END + i, raw[i]);
        i = i + 1;
        assert(version@ =~= splice(old(version)@, OFF_END as int, raw@.subrange(0, i as int)));
    }
    assert(raw@.subrange(0, 8) =~= raw@);
}

} // verus!
