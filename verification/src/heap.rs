//! The heap: records appended to slotted pages, the last of which (the tail)
//! is remembered in the meta page. A record is found again by its record id.
use crate::buffer::BufferPool;
use crate::error::{Error, Result};
use crate::page::meta::{heap_tail_of, meta_heap_tail, meta_next_timestamp, meta_root, meta_valid, META_PAGE};
use crate::page::slotted::{free_bytes_of, page_ok, page_type_of, pages_ok, records_of, slot_count_of, slotted_wf, HEADER_SIZE, PAGE_TYPE_SLOTTED, SLOT_SIZE};
use crate::page::{lemma_page_len, PageId, RecordId, PAGE_SIZE};
use vstd::prelude::*;

verus! {

broadcast use lemma_page_len;

/// The record that `rid` points at in `pages`, if there is one.
pub open spec fn heap_record(pages: Seq<Seq<u8>>, rid: RecordId) -> Option<Seq<u8>> {
    if rid.page.0 < pages.len() && slotted_wf(pages[rid.page.0 as int]) && rid.slot
        < slot_count_of(pages[rid.page.0 as int]) {
        records_of(pages[rid.page.0 as int])[rid.slot as int]
    } else {
        None
    }
}

/// Every record of `old` is still there, unchanged and in its slot, in
/// `new`; pages may have gained records and the file may have grown.
pub open spec fn records_kept(old: Seq<Seq<u8>>, new: Seq<Seq<u8>>) -> bool {
    &&& old.len() <= new.len()
    &&& forall|p: int|
        1 <= p < old.len() && slotted_wf(#[trigger] old[p]) ==> {
            &&& slotted_wf(new[p])
            &&& records_of(old[p]).len() <= records_of(new[p]).len()
            &&& records_of(new[p]).subrange(0, records_of(old[p]).len() as int) == records_of(
                old[p],
            )
        }
}

pub proof fn lemma_records_kept_refl(pages: Seq<Seq<u8>>)
    ensures
        records_kept(pages, pages),
{
    assert forall|p: int| 1 <= p < pages.len() && slotted_wf(#[trigger] pages[p]) implies records_of(
        pages[p],
    ).subrange(0, records_of(pages[p]).len() as int) == records_of(pages[p]) by {
        assert(records_of(pages[p]).subrange(0, records_of(pages[p]).len() as int) =~= records_of(
            pages[p],
        ));
    }
}

/// Every page after the meta page keeps its page type, and a page added at
/// the end is a plain slotted page.
pub open spec fn types_kept(old: Seq<Seq<u8>>, new: Seq<Seq<u8>>) -> bool {
    &&& forall|q: int| 1 <= q < old.len() ==> page_type_of(#[trigger] new[q]) == page_type_of(old[q])
    &&& forall|q: int| old.len() <= q < new.len() && q >= 1 ==> page_type_of(#[trigger] new[q]) == PAGE_TYPE_SLOTTED
}

/// Records kept from `a` to `b` and from `b` to `c` are kept from `a` to
/// `c`: a record once stored stays, whatever is appended after it.
pub proof fn law_records_kept_trans(a: Seq<Seq<u8>>, b: Seq<Seq<u8>>, c: Seq<Seq<u8>>, rid: RecordId)
    requires
        records_kept(a, b),
        records_kept(b, c),
        rid.page.0 >= 1,
    ensures
        records_kept(a, c),
        heap_record(a, rid) is Some ==> heap_record(c, rid) == heap_record(a, rid),
{
    assert forall|p: int| 1 <= p < a.len() && slotted_wf(#[trigger] a[p]) implies {
        &&& slotted_wf(c[p])
        &&& records_of(a[p]).len() <= records_of(c[p]).len()
        &&& records_of(c[p]).subrange(0, records_of(a[p]).len() as int) == records_of(a[p])
    } by {
        let n = records_of(a[p]).len() as int;
        assert(records_of(c[p]).subrange(0, n) =~= records_of(c[p]).subrange(0, records_of(b[p]).len() as int).subrange(0, n));
    }
    if heap_record(a, rid) is Some {
        let p = rid.page.0 as int;
        let n = records_of(a[p]).len() as int;
        assert(records_of(c[p]).subrange(0, n)[rid.slot as int] == records_of(a[p])[rid.slot as int]);
    }
}

/// The meta page keeps its validity, tree root and timestamp counter.
pub open spec fn meta_kept(old: Seq<u8>, new: Seq<u8>) -> bool {
    &&& meta_valid(new) == meta_valid(old)
    &&& meta_root(new) == meta_root(old)
    &&& meta_next_timestamp(new) == meta_next_timestamp(old)
}

/// What the heap operations ask of the pool: well formed, nothing pinned,
/// a meta page and slotted pages after it.
pub open spec fn heap_ready(pool: &BufferPool) -> bool {
    &&& pool.wf()
    &&& pool.all_unpinned()
    &&& pool.pages().len() >= 1
    &&& pages_ok(pool.pages())
}

/// The heap's tail page is in the file and has room for a record of `len`
/// bytes and its slot.
pub open spec fn tail_fits(pages: Seq<Seq<u8>>, len: int) -> bool {
    match heap_tail_of(pages[0]) {
        Some(t) => t.0 < pages.len() && len + SLOT_SIZE <= free_bytes_of(pages[t.0 as int]),
        None => false,
    }
}

/// The largest record that fits on a page.
pub open spec fn max_record() -> int {
    PAGE_SIZE - HEADER_SIZE - SLOT_SIZE
}

/// Appends `record` to the tail page, or to a fresh page that becomes the
/// tail when the tail is full or there is none yet.
pub fn insert(pool: &mut BufferPool, record: &[u8]) -> (r: Result<RecordId>)
    requires
        heap_ready(old(pool)),
        old(pool).pages().len() + 1 < usize::MAX,
        old(pool).pages().len() + 1 <= u64::MAX,
        record@.len() + SLOT_SIZE <= usize::MAX,
    ensures
        heap_ready(final(pool)),
        final(pool).frame_count() == old(pool).frame_count(),
        records_kept(old(pool).pages(), final(pool).pages()),
        final(pool).pages().len() <= old(pool).pages().len() + 1,
        meta_kept(old(pool).pages()[0], final(pool).pages()[0]),
        types_kept(old(pool).pages(), final(pool).pages()),
        forall|q: int|
            1 <= q < old(pool).pages().len() && q != meta_heap_tail(old(pool).pages()[0])
                ==> #[trigger] final(pool).pages()[q] == old(pool).pages()[q],
        heap_tail_of(final(pool).pages()[0]) == heap_tail_of(old(pool).pages()[0])
            || (heap_tail_of(final(pool).pages()[0]) == Some(PageId(old(pool).pages().len() as u64))
            && final(pool).pages().len() == old(pool).pages().len() + 1),
        match r {
            Ok(rid) => {
                &&& heap_record(final(pool).pages(), rid) == Some(record@)
                &&& heap_tail_of(final(pool).pages()[0]) == Some(rid.page)
                &&& rid.page.0 >= 1
                &&& rid.page.0 < old(pool).pages().len() ==> rid.slot == slot_count_of(
                    old(pool).pages()[rid.page.0 as int],
                )
                &&& if tail_fits(old(pool).pages(), record@.len() as int) {
                    Some(rid.page) == heap_tail_of(old(pool).pages()[0])
                } else {
                    rid.page.0 == old(pool).pages().len() && rid.slot == 0
                }
            },
            Err(Error::PageFull { size, free }) => {
                &&& record@.len() > max_record()
                &&& size == record@.len() + SLOT_SIZE
                &&& free == PAGE_SIZE - HEADER_SIZE
            },
            Err(Error::PageOutOfRange { requested, page_count }) => {
                &&& heap_tail_of(old(pool).pages()[0]) == Some(PageId(requested))
                &&& requested >= old(pool).pages().len()
                &&& page_count == old(pool).pages().len()
            },
            Err(Error::BufferPoolFull) => old(pool).frame_count() == 0,
            _ => false,
        },
{
    proof {
        if old(pool).frame_count() > 0 {
            old(pool).lemma_unpinned_has_free_frame();
        }
        old(pool).lemma_unpinned_pin(META_PAGE);
        lemma_records_kept_refl(old(pool).pages());
    }
    let meta = match pool.fetch_page(PageId(META_PAGE)) {
        Ok(f) => f,
        Err(e) => return Err(e),
    };
    let tail = pool.page(meta).heap_tail();
    let _ = pool.unpin(meta);
    let ghost pages0 = pool.pages();
    assert(pool.all_unpinned());

    // tail exists so append the record
    if let Some(page_id) = tail {
        proof {
            if pool.frame_count() > 0 {
                pool.lemma_unpinned_has_free_frame();
            }
            pool.lemma_unpinned_pin(page_id.0);
        }
        let frame = match pool.fetch_page(page_id) {
            Ok(f) => f,
            Err(e) => return Err(e),
        };
        let ghost pages1 = pool.pages();
        assert(page_ok(pages1[page_id.0 as int]));
        proof {
            crate::page::slotted::lemma_zero_page_layout();
        }
        let appended = pool.page_mut(frame).append_slot(record);
        let ghost pages2 = pool.pages();
        let _ = pool.unpin(frame);
        proof {
            assert(pages_ok(pool.pages()));
            assert(pool.all_unpinned());
            assert(records_kept(old(pool).pages(), pool.pages())) by {
                assert forall|p: int|
                    1 <= p < old(pool).pages().len() && slotted_wf(
                        #[trigger] old(pool).pages()[p],
                    ) implies {
                    &&& slotted_wf(pool.pages()[p])
                    &&& records_of(old(pool).pages()[p]).len() <= records_of(pool.pages()[p]).len()
                    &&& records_of(pool.pages()[p]).subrange(
                        0,
                        records_of(old(pool).pages()[p]).len() as int,
                    ) == records_of(old(pool).pages()[p])
                } by {
                    if p == page_id.0 {
                        assert(records_of(pool.pages()[p]).subrange(
                            0,
                            records_of(old(pool).pages()[p]).len() as int,
                        ) =~= records_of(old(pool).pages()[p]));
                    }
                }
            }
        }
        match appended {
            Ok(slot) => {
                return Ok(RecordId { page: page_id, slot });
            },
            Err(Error::PageFull { .. }) => {},  // handled below by creating a new page
            Err(e) => {
                return Err(e);
            },
        }
    }
    let ghost pages3 = pool.pages();
    proof {
        if pool.frame_count() > 0 {
            pool.lemma_unpinned_has_free_frame();
        }
    }
    // create a new page, make it the tail and append the record
    let (page_id, frame) = match pool.new_page() {
        Ok(x) => x,
        Err(e) => return Err(e),
    };
    pool.page_mut(frame).init_slotted();
    let appended = pool.page_mut(frame).append_slot(record);
    let _ = pool.unpin(frame);
    let ghost pages4 = pool.pages();
    proof {
        assert(pages_ok(pool.pages()));
        assert(pool.all_unpinned());
        if pool.frame_count() > 0 {
            pool.lemma_unpinned_has_free_frame();
        }
        pool.lemma_unpinned_pin(META_PAGE);
    }
    let meta = match pool.fetch_page(PageId(META_PAGE)) {
        Ok(f) => f,
        Err(e) => return Err(e),
    };
    pool.page_mut(meta).set_heap_tail(page_id);
    let _ = pool.unpin(meta);
    proof {
        assert(pages_ok(pool.pages()));
        assert(pool.all_unpinned());
        assert(records_kept(old(pool).pages(), pool.pages())) by {
            assert forall|p: int|
                1 <= p < old(pool).pages().len() && slotted_wf(
                    #[trigger] old(pool).pages()[p],
                ) implies {
                &&& slotted_wf(pool.pages()[p])
                &&& records_of(old(pool).pages()[p]).len() <= records_of(pool.pages()[p]).len()
                &&& records_of(pool.pages()[p]).subrange(
                    0,
                    records_of(old(pool).pages()[p]).len() as int,
                ) == records_of(old(pool).pages()[p])
            } by {
                assert(pages3[p] == pool.pages()[p]);
                assert(records_of(pool.pages()[p]).subrange(
                    0,
                    records_of(pages3[p]).len() as int,
                ) =~= records_of(pages3[p]));
            }
        }
    }
    match appended {
        Ok(slot) => Ok(RecordId { page: page_id, slot }),
        Err(e) => Err(e),
    }
}

} // verus!

verus! {

/// Why a record id does not lead to a record, as `get` and `overwrite`
/// report it; `None` when it does.
pub open spec fn lookup_error(pages: Seq<Seq<u8>>, rid: RecordId) -> Option<Error> {
    let p = rid.page.0 as int;
    if rid.page.0 >= pages.len() {
        Some(Error::PageOutOfRange { requested: rid.page.0, page_count: pages.len() as u64 })
    } else if rid.slot >= slot_count_of(pages[p]) {
        Some(Error::NoSuchSlot(rid.slot))
    } else if !slotted_wf(pages[p]) {
        Some(Error::CorruptPage(rid.page.0))
    } else if records_of(pages[p])[rid.slot as int] is None {
        Some(Error::SlotDeleted(rid.slot))
    } else {
        None
    }
}

/// A record id leads to a record exactly when no lookup error stands in the
/// way.
pub proof fn lemma_lookup_error(pages: Seq<Seq<u8>>, rid: RecordId)
    ensures
        lookup_error(pages, rid) is None <==> heap_record(pages, rid) is Some,
{
}

/// Checks the page in `frame` for a lookup of `rid` there.
fn check_lookup(pool: &BufferPool, frame: usize, rid: RecordId) -> (r: Option<Error>)
    requires
        pool.wf(),
        frame < pool.frame_count(),
        pool.frame_of(frame as int) == Some(rid.page),
        rid.page.0 != 0 ==> page_ok(pool.frame_page(frame as int)),
    ensures
        r == lookup_error(pool.pages(), rid),
{
    proof {
        pool.lemma_frame_view(frame as int);
    }
    let page = pool.page(frame);
    if rid.slot >= page.slot_count() {
        return Some(Error::NoSuchSlot(rid.slot));
    }
    let wf = if rid.page.0 == 0 {
        page.check_slotted()
    } else {
        page.is_initialized()
    };
    if !wf {
        return Some(Error::CorruptPage(rid.page.0));
    }
    match page.slot_bytes(rid.slot) {
        Ok(_) => None,
        Err(e) => Some(e),
    }
}

/// A copy of the record that `rid` points at.
pub fn get(pool: &mut BufferPool, rid: RecordId) -> (r: Result<Vec<u8>>)
    requires
        heap_ready(old(pool)),
    ensures
        heap_ready(final(pool)),
        final(pool).frame_count() == old(pool).frame_count(),
        final(pool).pages() == old(pool).pages(),
        match r {
            Ok(v) => heap_record(old(pool).pages(), rid) == Some(v@),
            Err(Error::BufferPoolFull) => old(pool).frame_count() == 0,
            Err(e) => lookup_error(old(pool).pages(), rid) == Some(e),
        },
{
    proof {
        if old(pool).frame_count() > 0 {
            old(pool).lemma_unpinned_has_free_frame();
        }
        old(pool).lemma_unpinned_pin(rid.page.0);
    }
    let frame = match pool.fetch_page(rid.page) {
        Ok(f) => f,
        Err(e) => return Err(e),
    };
    let out = match check_lookup(pool, frame, rid) {
        Some(e) => Err(e),
        None => match pool.page(frame).slot_bytes(rid.slot) {
            Ok(bytes) => Ok(vstd::slice::slice_to_vec(bytes)),
            Err(e) => Err(e),
        },
    };
    let _ = pool.unpin(frame);
    proof {
        assert(pool.all_unpinned());
        assert(pool.pages() == old(pool).pages());
    }
    out
}

/// Writes `bytes` over the record that `rid` points at, which has the same
/// length.
pub fn overwrite(pool: &mut BufferPool, rid: RecordId, bytes: &[u8]) -> (r: Result<()>)
    requires
        heap_ready(old(pool)),
        heap_record(old(pool).pages(), rid) is Some ==> heap_record(old(pool).pages(), rid)->0.len()
            == bytes@.len(),
    ensures
        heap_ready(final(pool)),
        final(pool).frame_count() == old(pool).frame_count(),
        final(pool).pages().len() == old(pool).pages().len(),
        forall|q: int|
            0 <= q < old(pool).pages().len() && q != rid.page.0 ==> #[trigger] final(pool).pages()[q]
                == old(pool).pages()[q],
        types_kept(old(pool).pages(), final(pool).pages()),
        match r {
            Ok(()) => {
                &&& heap_record(old(pool).pages(), rid) is Some
                &&& slotted_wf(final(pool).pages()[rid.page.0 as int])
                &&& records_of(final(pool).pages()[rid.page.0 as int]) == records_of(
                    old(pool).pages()[rid.page.0 as int],
                ).update(rid.slot as int, Some(bytes@))
                &&& heap_record(final(pool).pages(), rid) == Some(bytes@)
            },
            Err(Error::BufferPoolFull) => old(pool).frame_count() == 0 && final(pool).pages()
                == old(pool).pages(),
            Err(e) => lookup_error(old(pool).pages(), rid) == Some(e) && final(pool).pages()
                == old(pool).pages(),
        },
{
    proof {
        if old(pool).frame_count() > 0 {
            old(pool).lemma_unpinned_has_free_frame();
        }
        old(pool).lemma_unpinned_pin(rid.page.0);
    }
    let frame = match pool.fetch_page(rid.page) {
        Ok(f) => f,
        Err(e) => return Err(e),
    };
    let out = match check_lookup(pool, frame, rid) {
        Some(e) => Err(e),
        None => pool.page_mut(frame).overwrite_slot(rid.slot, bytes),
    };
    let _ = pool.unpin(frame);
    proof {
        assert(pool.all_unpinned());
        assert(pages_ok(pool.pages()));
    }
    out
}

} // verus!
