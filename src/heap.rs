//! The kernel heap's virtual region: eager mapping at boot and growth on
//! demand. The free list itself is kept by the allocator that manages the
//! region; this module decides how far the region grows and backs every
//! byte of it with a mapped frame before the free list may use it.
use vstd::prelude::*;
use crate::frame::BitmapAllocator;
use crate::paging::{
    OffsetPageTable, PageTableFlags, ADDRESS_MASK, ALL_FLAGS, PRESENT, WRITABLE, lemma_slot_indices,
    page_slot,
};

verus! {

/// Virtual address where the heap begins.
pub const HEAP_START: u64 = 0x4444_0000_0000;

/// Size of the heap mapped at boot: 20 MiB.
pub const HEAP_SIZE: u64 = 0x140_0000;

/// The smallest amount by which the heap grows: 1 MiB.
pub const MIN_GROW: u64 = 0x10_0000;

/// End of the lower canonical half of the address space; the heap never
/// extends past it.
pub const HEAP_LIMIT: u64 = 0x0000_8000_0000_0000;

/// Why the heap could not be set up or grown.
#[derive(Clone, Copy, Debug, PartialEq, Eq, Structural)]
pub enum HeapError {
    /// No free frame was left to back a page or a page table.
    OutOfFrames,
    /// The grown heap would extend past the end of its address range.
    RegionExhausted,
}

/// `w` lies in a page mapped present and writable (the flags every heap
/// page gets, and no others).
pub open spec fn writable_page(mapper: OffsetPageTable, w: u64) -> bool {
    match mapper.leaf(w) {
        Some(e) => e.0 & ALL_FLAGS == 3,
        None => false,
    }
}

/// Every byte of `[start, end)` lies in a page mapped present and writable.
pub open spec fn backed(mapper: OffsetPageTable, start: int, end: int) -> bool {
    forall|v: u64| start <= v < end ==> #[trigger] writable_page(mapper, v)
}

/// `w`'s slot is one of the pages from the page boundary at or after
/// `from` up to the one that holds `to - 1`.
pub open spec fn in_pages(w: u64, from: int, to: int) -> bool {
    (from + 0xFFF) / 0x1000 <= page_slot(w) < (to + 0xFFF) / 0x1000
}

/// `w`'s page is mapped present and writable to a frame that was free in
/// `before` and no longer is in `after`.
pub open spec fn fresh_page(mapper: OffsetPageTable, w: u64, before: Set<u64>, after: BitmapAllocator) -> bool {
    &&& writable_page(mapper, w)
    &&& before.contains(mapper.translate(w)->0)
    &&& !after.free_frames().contains(mapper.translate(w)->0)
}

/// Distinct pages among `[from, to)` map to distinct frames.
pub open spec fn distinct_frames(mapper: OffsetPageTable, from: int, to: int) -> bool {
    forall|w1: u64, w2: u64|
        in_pages(w1, from, to) && in_pages(w2, from, to) && page_slot(w1) != page_slot(w2)
            ==> #[trigger] mapper.translate(w1) != #[trigger] mapper.translate(w2)
}

proof fn lemma_low_slot(v: u64)
    requires
        v < 0x1_0000_0000_0000,
    ensures
        page_slot(v) == v / 0x1000,
{
    assert((v >> 12u64) & 0xf_ffff_ffffu64 == v / 0x1000) by (bit_vector)
        requires
            v < 0x1_0000_0000_0000u64,
    ;
}

proof fn lemma_heap_entry(f: u64)
    requires
        f % 0x1000 == 0,
        f < 0x10_0000_0000_0000,
    ensures
        ((f & ADDRESS_MASK) | (3u64 | PRESENT)) & ADDRESS_MASK == f,
        ((f & ADDRESS_MASK) | (3u64 | PRESENT)) & ALL_FLAGS == 3,
{
    assert(((f & 0x000f_ffff_ffff_f000u64) | (3u64 | 1u64)) & 0x000f_ffff_ffff_f000u64 == f && ((f
        & 0x000f_ffff_ffff_f000u64) | (3u64 | 1u64)) & 0x8000_0000_0000_01FFu64 == 3u64)
        by (bit_vector)
        requires
            f % 0x1000 == 0,
            f < 0x10_0000_0000_0000u64,
    ;
}

/// Number of pages from the page boundary at or after `from` up to `to`.
pub open spec fn pages_between(from: int, to: int) -> int {
    let first = (from + 0xFFF) / 0x1000 * 0x1000;
    if to <= first {
        0
    } else {
        (to - first + 0xFFF) / 0x1000
    }
}

/// Addresses in the same slot have the same final entry.
proof fn lemma_same_slot(mapper: OffsetPageTable, v: u64, w: u64)
    requires
        page_slot(v) == page_slot(w),
    ensures
        mapper.leaf(v) == mapper.leaf(w),
        mapper.translate(v) == mapper.translate(w),
{
    lemma_slot_indices(v, w);
}

/// Addresses in the same page translate alike.
proof fn lemma_same_page(mapper: OffsetPageTable, v: u64, w: u64)
    requires
        v / 0x1000 == w / 0x1000,
        v < 0x1_0000_0000_0000,
        w < 0x1_0000_0000_0000,
    ensures
        mapper.leaf(v) == mapper.leaf(w),
        mapper.translate(v) == mapper.translate(w),
{
    lemma_low_slot(v);
    lemma_low_slot(w);
    lemma_same_slot(mapper, v, w);
}

/// `after_mapper` and `after_frames` are the mapper and frames once the
/// heap has been asked to grow from `old_end` to `new_end`: every page
/// outside the new range keeps its final entry, and when it `succeeded`,
/// each page of the new range is mapped present and writable to its own
/// frame, taken from the frames free before.
pub open spec fn grew(
    before_mapper: OffsetPageTable,
    before_frames: BitmapAllocator,
    after_mapper: OffsetPageTable,
    after_frames: BitmapAllocator,
    old_end: int,
    new_end: int,
    succeeded: bool,
) -> bool {
    &&& forall|w: u64|
        !in_pages(w, old_end, new_end) ==> #[trigger] after_mapper.leaf(w) == before_mapper.leaf(w)
    &&& succeeded ==> forall|w: u64|
        in_pages(w, old_end, new_end) ==> #[trigger] fresh_page(
            after_mapper,
            w,
            before_frames.free_frames(),
            after_frames,
        )
    &&& succeeded ==> distinct_frames(after_mapper, old_end, new_end)
}

/// The committed part of the heap's virtual region.
pub struct HeapRegion {
    pub start: u64,
    pub size: u64,
}

impl HeapRegion {
    /// The region starts on a page boundary and ends below the limit.
    pub open spec fn wf(&self) -> bool {
        &&& self.start % 0x1000 == 0
        &&& self.start + self.size <= HEAP_LIMIT
    }

    /// Every committed byte is backed by a mapped frame.
    pub open spec fn backed_by(&self, mapper: OffsetPageTable) -> bool {
        backed(mapper, self.start as int, self.start + self.size)
    }

    /// Size of the committed heap in bytes.
    pub fn get_heap_size(&self) -> (r: u64)
        ensures
            r == self.size,
    {
        self.size
    }
}

/// Maps every page of `[from, to)` (`from` page-aligned) to its own fresh
/// frame, present and writable. Every other page keeps its final entry.
fn map_pages(mapper: &mut OffsetPageTable, frames: &mut BitmapAllocator, from: u64, to: u64) -> (r:
    Result<(), HeapError>)
    requires
        old(mapper).wf(),
        old(frames).wf(),
        old(mapper).reserved_in(*old(frames)),
        from % 0x1000 == 0,
        from <= to <= HEAP_LIMIT,
    ensures
        final(mapper).wf(),
        final(frames).wf(),
        final(mapper).reserved_in(*final(frames)),
        final(mapper).level_4_addr == old(mapper).level_4_addr,
        final(mapper).hhdm_offset == old(mapper).hhdm_offset,
        final(frames).total_pages == old(frames).total_pages,
        final(frames).highest_address == old(frames).highest_address,
        final(frames).free_frames().subset_of(old(frames).free_frames()),
        old(mapper).keeps_mappings(*final(mapper)),
        forall|w: u64|
            !in_pages(w, from as int, to as int) ==> #[trigger] final(mapper).leaf(w) == old(
                mapper,
            ).leaf(w),
        from == to ==> *final(mapper) == *old(mapper) && *final(frames) == *old(frames),
        r is Ok ==> forall|w: u64|
            in_pages(w, from as int, to as int) ==> #[trigger] fresh_page(
                *final(mapper),
                w,
                old(frames).free_frames(),
                *final(frames),
            ),
        r is Ok ==> distinct_frames(*final(mapper), from as int, to as int),
        r is Ok ==> backed(*final(mapper), from as int, to as int),
        r is Err ==> r == Err::<(), HeapError>(HeapError::OutOfFrames) && final(frames).free_count()
            == 0,
        old(frames).free_count() >= 4 * pages_between(from as int, to as int) ==> r is Ok,
{
    let ghost m0 = *mapper;
    let ghost free0 = frames.free_frames();
    let ghost lo = from / 0x1000;
    let mut addr = from;
    while addr < to
        invariant
            from <= addr,
            addr < to + 0x1000,
            addr % 0x1000 == 0,
            from % 0x1000 == 0,
            to <= HEAP_LIMIT,
            lo == from / 0x1000,
            mapper.wf(),
            frames.wf(),
            mapper.reserved_in(*frames),
            mapper.level_4_addr == m0.level_4_addr,
            mapper.hhdm_offset == m0.hhdm_offset,
            frames.total_pages == old(frames).total_pages,
            frames.highest_address == old(frames).highest_address,
            m0 == *old(mapper),
            free0 == old(frames).free_frames(),
            addr == from ==> *mapper == m0 && *frames == *old(frames),
            frames.free_frames().subset_of(free0),
            m0.keeps_mappings(*mapper),
            forall|w: u64|
                !(lo <= page_slot(w) < addr / 0x1000) ==> #[trigger] mapper.leaf(w) == m0.leaf(w),
            forall|w: u64|
                lo <= page_slot(w) < addr / 0x1000 ==> #[trigger] fresh_page(
                    *mapper,
                    w,
                    free0,
                    *frames,
                ),
            forall|w1: u64, w2: u64|
                lo <= page_slot(w1) < addr / 0x1000 && lo <= page_slot(w2) < addr / 0x1000
                    && page_slot(w1) != page_slot(w2) ==> #[trigger] mapper.translate(w1)
                    != #[trigger] mapper.translate(w2),
            old(frames).free_count() >= 4 * pages_between(from as int, to as int) ==> frames.free_count()
                >= 4 * pages_between(addr as int, to as int),
        decreases to + 0x1000 - addr,
    {
        let ghost f0 = *frames;
        let ghost s0 = *mapper;
        let frame = match frames.alloc_frame() {
            Some(f) => f,
            None => {
                return Err(HeapError::OutOfFrames);
            },
        };
        let ghost f1 = *frames;
        proof {
            crate::frame::lemma_allocation_in_range(f0, f1, frame);
            lemma_low_slot(addr);
            lemma_heap_entry(frame);
            assert((0x1u64 | 0x2u64) & 0x8000_0000_0000_01FFu64 == 3u64) by (bit_vector);
        }
        let flags = PageTableFlags::from_bits_truncate(PRESENT | WRITABLE);
        match mapper.map(frames, addr, frame, flags) {
            Ok(()) => {},
            Err(_) => {
                proof {
                    m0.lemma_keeps_mappings_trans(s0, *mapper);
                    assert forall|w: u64|
                        !(lo <= page_slot(w) < addr / 0x1000 + 1) implies #[trigger] mapper.leaf(w)
                        == m0.leaf(w) by {
                        assert(mapper.leaf(w) == s0.leaf(w));
                    }
                    assert forall|w: u64| !in_pages(w, from as int, to as int) implies #[trigger] mapper.leaf(w)
                        == m0.leaf(w) by {
                        assert(mapper.leaf(w) == s0.leaf(w));
                    }
                }
                return Err(HeapError::OutOfFrames);
            },
        }
        proof {
            let cur = addr / 0x1000;
            let fr = *frames;
            m0.lemma_keeps_mappings_trans(s0, *mapper);
            assert forall|w: u64| page_slot(w) == cur implies #[trigger] fresh_page(*mapper, w, free0, fr) by {
                assert(mapper.translate(w) == Some(frame));
            }
            assert forall|w: u64| lo <= page_slot(w) < cur + 1 implies #[trigger] fresh_page(
                *mapper,
                w,
                free0,
                fr,
            ) by {
                if page_slot(w) != cur {
                    assert(mapper.leaf(w) == s0.leaf(w));
                    assert(fresh_page(s0, w, free0, f0));
                }
            }
            assert forall|w: u64| !(lo <= page_slot(w) < cur + 1) implies #[trigger] mapper.leaf(w)
                == m0.leaf(w) by {
                assert(mapper.leaf(w) == s0.leaf(w));
            }
            assert forall|w1: u64, w2: u64|
                lo <= page_slot(w1) < cur + 1 && lo <= page_slot(w2) < cur + 1 && page_slot(w1)
                    != page_slot(w2) implies #[trigger] mapper.translate(w1)
                != #[trigger] mapper.translate(w2) by {
                if page_slot(w1) == cur {
                    assert(mapper.translate(w2) == s0.translate(w2));
                    assert(fresh_page(s0, w2, free0, f0));
                } else if page_slot(w2) == cur {
                    assert(mapper.translate(w1) == s0.translate(w1));
                    assert(fresh_page(s0, w1, free0, f0));
                } else {
                    assert(mapper.translate(w1) == s0.translate(w1));
                    assert(mapper.translate(w2) == s0.translate(w2));
                }
            }
            assert((addr + 0x1000) / 0x1000 == cur + 1);
        }
        addr = addr + 0x1000;
    }
    proof {
        assert(addr / 0x1000 == (to + 0xFFF) / 0x1000);
        assert((from + 0xFFF) / 0x1000 == lo);
        assert forall|v: u64| from <= v < to implies #[trigger] writable_page(*mapper, v) by {
            lemma_low_slot(v);
            assert(fresh_page(*mapper, v, free0, *frames));
        }
    }
    Ok(())
}

/// Maps the whole initial heap, `HEAP_SIZE` bytes from `HEAP_START`, each
/// page to a fresh frame.
pub fn init_heap(mapper: &mut OffsetPageTable, frames: &mut BitmapAllocator) -> (r: Result<
    HeapRegion,
    HeapError,
>)
    requires
        old(mapper).wf(),
        old(frames).wf(),
        old(mapper).reserved_in(*old(frames)),
    ensures
        final(mapper).wf(),
        final(frames).wf(),
        final(mapper).reserved_in(*final(frames)),
        final(mapper).level_4_addr == old(mapper).level_4_addr,
        old(mapper).keeps_mappings(*final(mapper)),
        grew(
            *old(mapper),
            *old(frames),
            *final(mapper),
            *final(frames),
            HEAP_START as int,
            HEAP_START + HEAP_SIZE,
            r is Ok,
        ),
        r is Ok ==> {
            let h = r->Ok_0;
            &&& h.wf()
            &&& h.start == HEAP_START
            &&& h.size == HEAP_SIZE
            &&& h.backed_by(*final(mapper))
        },
        r is Err ==> r == Err::<HeapRegion, HeapError>(HeapError::OutOfFrames)
            && final(frames).free_count() == 0,
        old(frames).free_count() >= 4 * (HEAP_SIZE / 0x1000) ==> r is Ok,
{
    match map_pages(mapper, frames, HEAP_START, HEAP_START + HEAP_SIZE) {
        Ok(()) => Ok(HeapRegion { start: HEAP_START, size: HEAP_SIZE }),
        Err(e) => Err(e),
    }
}

/// The amount the heap grows by to serve a request of `request` bytes the
/// free list could not serve: the request, but at least `MIN_GROW`.
pub fn grow_size(request: u64) -> (r: u64)
    ensures
        r == if request > MIN_GROW {
            request
        } else {
            MIN_GROW
        },
{
    if request > MIN_GROW {
        request
    } else {
        MIN_GROW
    }
}

impl HeapRegion {
    /// Extends the committed heap by `increment` bytes, mapping every page
    /// between the old end (rounded up to a page) and the new end to a fresh
    /// frame first. Returns the old end of the heap. On failure the region
    /// keeps its size.
    pub fn sys_sbrk(
        &mut self,
        mapper: &mut OffsetPageTable,
        frames: &mut BitmapAllocator,
        increment: u64,
    ) -> (r: Result<u64, HeapError>)
        requires
            old(self).wf(),
            old(self).backed_by(*old(mapper)),
            old(mapper).wf(),
            old(frames).wf(),
            old(mapper).reserved_in(*old(frames)),
        ensures
            final(self).wf(),
            final(self).start == old(self).start,
            final(self).backed_by(*final(mapper)),
            final(mapper).wf(),
            final(frames).wf(),
            final(mapper).reserved_in(*final(frames)),
            final(mapper).level_4_addr == old(mapper).level_4_addr,
            old(mapper).keeps_mappings(*final(mapper)),
            ({
                let old_end = old(self).start + old(self).size;
                if old_end + increment > HEAP_LIMIT {
                    &&& r == Err::<u64, HeapError>(HeapError::RegionExhausted)
                    &&& *final(self) == *old(self)
                } else if increment == 0 {
                    &&& r == Ok::<u64, HeapError>(old_end as u64)
                    &&& *final(self) == *old(self)
                    &&& *final(mapper) == *old(mapper)
                    &&& *final(frames) == *old(frames)
                } else {
                    &&& grew(
                        *old(mapper),
                        *old(frames),
                        *final(mapper),
                        *final(frames),
                        old_end,
                        old_end + increment,
                        r is Ok,
                    )
                    &&& r is Ok ==> r->Ok_0 == old_end && final(self).size == old(self).size
                        + increment
                    &&& r is Err ==> r == Err::<u64, HeapError>(HeapError::OutOfFrames)
                        && final(self).size == old(self).size && final(frames).free_count() == 0
                    &&& old(frames).free_count() >= 4 * pages_between(old_end, old_end + increment)
                        ==> r is Ok
                }
            }),
    {
        let old_end = self.start + self.size;
        if increment > HEAP_LIMIT - old_end {
            return Err(HeapError::RegionExhausted);
        }
        if increment == 0 {
            return Ok(old_end);
        }
        let new_end = old_end + increment;
        let map_from = if old_end % 0x1000 == 0 {
            old_end
        } else {
            old_end - old_end % 0x1000 + 0x1000
        };
        let ghost m0 = *mapper;
        let ghost f0 = *frames;
        assert(map_from / 0x1000 == (old_end + 0xFFF) / 0x1000);
        if map_from < new_end {
            match map_pages(mapper, frames, map_from, new_end) {
                Ok(()) => {},
                Err(e) => {
                    proof {
                        assert forall|v: u64| self.start <= v < old_end implies #[trigger] writable_page(
                            *mapper,
                            v,
                        ) by {
                            lemma_low_slot(v);
                            assert(writable_page(*old(mapper), v));
                            assert(!in_pages(v, map_from as int, new_end as int));
                            assert(mapper.leaf(v) == m0.leaf(v));
                        }
                        assert forall|w: u64| !in_pages(w, old_end as int, new_end as int) implies #[trigger] mapper.leaf(w)
                            == m0.leaf(w) by {
                            assert(!in_pages(w, map_from as int, new_end as int));
                        }
                    }
                    return Err(e);
                },
            }
        }
        proof {
            assert forall|w: u64| !in_pages(w, old_end as int, new_end as int) implies #[trigger] mapper.leaf(w)
                == m0.leaf(w) by {
                if map_from < new_end {
                    assert(!in_pages(w, map_from as int, new_end as int));
                }
            }
            assert forall|w: u64| in_pages(w, old_end as int, new_end as int) implies #[trigger] fresh_page(
                *mapper,
                w,
                f0.free_frames(),
                *frames,
            ) by {
                assert(in_pages(w, map_from as int, new_end as int));
            }
            assert forall|w1: u64, w2: u64|
                in_pages(w1, old_end as int, new_end as int) && in_pages(w2, old_end as int, new_end as int)
                    && page_slot(w1) != page_slot(w2) implies #[trigger] mapper.translate(w1)
                != #[trigger] mapper.translate(w2) by {
                assert(in_pages(w1, map_from as int, new_end as int));
                assert(in_pages(w2, map_from as int, new_end as int));
            }
            assert forall|v: u64| self.start <= v < new_end implies #[trigger] writable_page(*mapper, v) by {
                lemma_low_slot(v);
                if v < old_end {
                    assert(writable_page(*old(mapper), v));
                    assert(!in_pages(v, old_end as int, new_end as int));
                    assert(mapper.leaf(v) == m0.leaf(v));
                } else if v < map_from {
                    let w = (old_end - 1) as u64;
                    lemma_low_slot(w);
                    assert(writable_page(*old(mapper), w));
                    assert(!in_pages(w, old_end as int, new_end as int));
                    assert(mapper.leaf(w) == m0.leaf(w));
                    lemma_same_page(*mapper, v, w);
                } else {
                    assert(in_pages(v, map_from as int, new_end as int));
                }
            }
        }
        self.size = self.size + increment;
        Ok(old_end)
    }

    /// Grows the heap after the free list failed to serve `request` bytes:
    /// by the request, but at least `MIN_GROW`. Returns how many bytes the
    /// free list may now take over at the old end of the heap.
    pub fn grow_for(
        &mut self,
        mapper: &mut OffsetPageTable,
        frames: &mut BitmapAllocator,
        request: u64,
    ) -> (r: Result<u64, HeapError>)
        requires
            old(self).wf(),
            old(self).backed_by(*old(mapper)),
            old(mapper).wf(),
            old(frames).wf(),
            old(mapper).reserved_in(*old(frames)),
        ensures
            final(self).wf(),
            final(self).start == old(self).start,
            final(self).backed_by(*final(mapper)),
            final(mapper).wf(),
            final(frames).wf(),
            final(mapper).reserved_in(*final(frames)),
            old(mapper).keeps_mappings(*final(mapper)),
            ({
                let grow = if request > MIN_GROW {
                    request
                } else {
                    MIN_GROW
                };
                let old_end = old(self).start + old(self).size;
                &&& r is Ok ==> r->Ok_0 == grow && final(self).size == old(self).size + grow
                &&& r is Err ==> final(self).size == old(self).size
                &&& old_end + grow <= HEAP_LIMIT ==> grew(
                    *old(mapper),
                    *old(frames),
                    *final(mapper),
                    *final(frames),
                    old_end,
                    old_end + grow,
                    r is Ok,
                )
                &&& old_end + grow > HEAP_LIMIT ==> r == Err::<u64, HeapError>(
                    HeapError::RegionExhausted,
                )
                &&& old_end + grow <= HEAP_LIMIT && old(frames).free_count() >= 4 * pages_between(
                    old_end,
                    old_end + grow,
                ) ==> r is Ok
            }),
    {
        let grow = grow_size(request);
        match self.sys_sbrk(mapper, frames, grow) {
            Ok(_) => Ok(grow),
            Err(e) => Err(e),
        }
    }
}

} // verus!
