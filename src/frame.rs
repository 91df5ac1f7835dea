//! Physical frame allocator: one bit per 4 KiB frame, 1 = in use.
use vstd::prelude::*;
use vstd::arithmetic::div_mod::{lemma_mod_add_multiples_vanish, lemma_small_mod};

verus! {

/// Size of one physical frame in bytes.
pub const FRAME_SIZE: u64 = 0x1000;

/// Frames below this index (the first MiB) are never handed out.
pub const RESERVED_LOW_FRAMES: usize = 256;

/// Whether bit `bit` (0..8) of `byte` is set.
pub open spec fn bit_is_set(byte: u8, bit: int) -> bool {
    byte & (1u8 << (bit as u8)) != 0u8
}

proof fn lemma_set_bit(b: u8, k: u8, j: u8)
    requires
        k < 8,
        j < 8,
    ensures
        ((b | (1u8 << k)) & (1u8 << j) != 0u8) == (j == k || (b & (1u8 << j)) != 0u8),
{
    assert(((b | (1u8 << k)) & (1u8 << j) != 0u8) == (j == k || (b & (1u8 << j)) != 0u8))
        by (bit_vector)
        requires
            k < 8,
            j < 8,
    ;
}

proof fn lemma_clear_bit(b: u8, k: u8, j: u8)
    requires
        k < 8,
        j < 8,
    ensures
        ((b & !(1u8 << k)) & (1u8 << j) != 0u8) == (j != k && (b & (1u8 << j)) != 0u8),
{
    assert(((b & !(1u8 << k)) & (1u8 << j) != 0u8) == (j != k && (b & (1u8 << j)) != 0u8))
        by (bit_vector)
        requires
            k < 8,
            j < 8,
    ;
}

proof fn lemma_full_byte(j: u8)
    requires
        j < 8,
    ensures
        (0xFFu8 & (1u8 << j)) != 0u8,
{
    assert((0xFFu8 & (1u8 << j)) != 0u8) by (bit_vector)
        requires
            j < 8,
    ;
}

/// Number of bytes of bitmap needed to describe `length` bytes of physical
/// memory, rounded up to whole frames.
pub open spec fn bitmap_size_spec(length: int) -> int {
    let pages = (length + 0xFFF) / 0x1000;
    let bytes = (pages + 7) / 8;
    (bytes + 0xFFF) / 0x1000 * 0x1000
}

/// The highest physical address the architecture can express (52 bits).
pub const MAX_PHYS_ADDR: u64 = 0x10_0000_0000_0000;

/// The type of a region of the boot memory map.
#[derive(Clone, Copy, Debug, PartialEq, Eq, Structural)]
pub enum MemoryKind {
    Usable,
    Reserved,
    AcpiReclaimable,
    AcpiNvs,
    BadMemory,
    BootloaderReclaimable,
    ExecutableAndModules,
    Framebuffer,
    Unknown,
}

/// One entry of the boot memory map.
#[derive(Clone, Copy, Debug, PartialEq, Eq, Structural)]
pub struct MemoryRegion {
    pub base: u64,
    pub length: u64,
    pub kind: MemoryKind,
}

/// Why the frame allocator could not be set up from a memory map.
#[derive(Clone, Copy, Debug, PartialEq, Eq, Structural)]
pub enum FrameInitError {
    /// No usable region is large enough to hold the bitmap.
    NoBitmapRegion,
    /// The region chosen for the bitmap does not start on a frame boundary.
    BitmapNotAligned,
    /// The bitmap would not fit in this machine's address space.
    BitmapTooLarge,
}

/// Regions whose frames the allocator may hand out.
pub open spec fn is_free_kind(kind: MemoryKind) -> bool {
    kind == MemoryKind::Usable || kind == MemoryKind::BootloaderReclaimable
}

/// Each region ends within the physical address space.
pub open spec fn regions_fit(regions: Seq<MemoryRegion>) -> bool {
    forall|i: int| 0 <= i < regions.len() ==> #[trigger] regions[i].base + regions[i].length
        <= MAX_PHYS_ADDR
}

/// The end of the highest free region among the first `n`.
pub open spec fn highest_free_end(regions: Seq<MemoryRegion>, n: int) -> int
    decreases n,
{
    if n <= 0 {
        0
    } else {
        let prev = highest_free_end(regions, n - 1);
        let r = regions[n - 1];
        if is_free_kind(r.kind) && r.base + r.length > prev {
            r.base + r.length
        } else {
            prev
        }
    }
}

/// Index of the first free region at or after `i` that holds `size` bytes.
pub open spec fn first_fit_from(regions: Seq<MemoryRegion>, size: int, i: int) -> Option<int>
    decreases regions.len() - i,
{
    if i < 0 || i >= regions.len() {
        None
    } else if is_free_kind(regions[i].kind) && regions[i].length >= size {
        Some(i)
    } else {
        first_fit_from(regions, size, i + 1)
    }
}

/// Whether stepping through region `r` frame by frame from its base, up to
/// (not including) `limit`, passes through frame `idx`.
pub open spec fn steps_over(base: int, limit: int, idx: int) -> bool {
    base <= idx * 0x1000 + base % 0x1000 < limit
}

/// Whether frame `idx` lies in one of the first `n` free regions.
pub open spec fn freed_by(regions: Seq<MemoryRegion>, n: int, idx: int) -> bool
    decreases n,
{
    if n <= 0 {
        false
    } else {
        freed_by(regions, n - 1, idx) || (is_free_kind(regions[n - 1].kind) && steps_over(
            regions[n - 1].base as int,
            regions[n - 1].base + regions[n - 1].length,
            idx,
        ))
    }
}

/// `after` is `before` once an allocation has returned `r`: a free frame,
/// now marked in use and gone from the free set, or `None` when no frame was
/// free, with nothing changed.
pub open spec fn allocated(before: BitmapAllocator, after: BitmapAllocator, r: Option<u64>) -> bool {
    &&& after.wf()
    &&& after.total_pages == before.total_pages
    &&& after.highest_address == before.highest_address
    &&& after.bitmap@.len() == before.bitmap@.len()
    &&& match r {
        Some(a) => {
            &&& a % 0x1000 == 0
            &&& before.free_frames().contains(a)
            &&& after.used_view() == before.used_view().update((a / 0x1000) as int, true)
            &&& after.free_frames() == before.free_frames().remove(a)
            &&& after.free_count() + 1 == before.free_count()
            &&& after.last_allocated == a / 0x1000
            &&& forall|j: int|
                0 <= j < before.total_pages && #[trigger] before.is_allocatable(j)
                    ==> before.scan_distance((a / 0x1000) as int) <= before.scan_distance(j)
        },
        None => {
            &&& before.free_count() == 0
            &&& before.free_frames().is_empty()
            &&& after == before
        },
    }
}

/// `after` is `before` once the frame holding `addr` has been given back.
pub open spec fn deallocated(before: BitmapAllocator, after: BitmapAllocator, addr: u64) -> bool {
    &&& after.wf() == before.wf()
    &&& after.total_pages == before.total_pages
    &&& after.highest_address == before.highest_address
    &&& after.bitmap@.len() == before.bitmap@.len()
    &&& after.used_view() == if (addr / 0x1000) / 8 < before.bitmap@.len() {
        before.used_view().update((addr / 0x1000) as int, false)
    } else {
        before.used_view()
    }
}

pub struct BitmapAllocator {
    pub bitmap: Vec<u8>,
    pub total_pages: usize,
    pub highest_address: u64,
    pub last_allocated: usize,
}

impl BitmapAllocator {
    pub open spec fn wf(&self) -> bool {
        &&& self.total_pages <= self.bitmap@.len() * 8
        &&& self.total_pages * 0x1000 <= u64::MAX
        &&& self.highest_address <= MAX_PHYS_ADDR
        &&& self.total_pages == pages_for(self.highest_address as int)
    }

    /// Whether the frame with index `idx` is marked in use.
    pub open spec fn is_used(&self, idx: int) -> bool {
        bit_is_set(self.bitmap@[idx / 8], idx % 8)
    }

    /// One flag per frame the bitmap describes: in use or not.
    pub open spec fn used_view(&self) -> Seq<bool> {
        Seq::new((self.bitmap@.len() * 8) as nat, |i: int| self.is_used(i))
    }

    /// A frame that `alloc_frame` may hand out.
    pub open spec fn is_allocatable(&self, idx: int) -> bool {
        &&& RESERVED_LOW_FRAMES <= idx < self.total_pages
        &&& idx * 0x1000 < self.highest_address
        &&& !self.is_used(idx)
    }

    /// The physical addresses of all frames that can still be handed out.
    pub open spec fn free_frames(&self) -> Set<u64> {
        Set::new(|a: u64| a % 0x1000 == 0 && self.is_allocatable((a / 0x1000) as int))
    }

    /// Number of allocatable frames among the first `n`.
    pub open spec fn count_allocatable(&self, n: int) -> nat
        decreases n,
    {
        if n <= 0 {
            0
        } else {
            self.count_allocatable(n - 1) + if self.is_allocatable(n - 1) {
                1nat
            } else {
                0nat
            }
        }
    }

    /// The frame a scan starts from: the one last handed out.
    pub open spec fn scan_start(&self) -> int {
        if self.total_pages == 0 {
            0
        } else {
            (self.last_allocated % self.total_pages) as int
        }
    }

    /// How many steps a scan takes from its start to frame `idx`, wrapping
    /// round at the end of the bitmap.
    pub open spec fn scan_distance(&self, idx: int) -> int {
        if self.total_pages == 0 {
            0
        } else {
            (idx - self.scan_start() + self.total_pages) % (self.total_pages as int)
        }
    }

    /// Number of frames that can still be handed out.
    pub open spec fn free_count(&self) -> nat {
        self.count_allocatable(self.total_pages as int)
    }

    /// Marks the frame holding `addr` as in use.
    fn mark_used(&mut self, addr: u64)
        requires
            (addr / 0x1000) / 8 < old(self).bitmap@.len(),
        ensures
            final(self).total_pages == old(self).total_pages,
            final(self).highest_address == old(self).highest_address,
            final(self).last_allocated == old(self).last_allocated,
            final(self).bitmap@.len() == old(self).bitmap@.len(),
            final(self).used_view() == old(self).used_view().update((addr / 0x1000) as int, true),
    {
        let frame_index = addr / 0x1000;
        let len = self.bitmap.len();
        assert(frame_index / 8 < len);
        let byte_index: usize = (frame_index / 8) as usize;
        let bit = (frame_index % 8) as u8;
        let old_byte = self.bitmap[byte_index];
        self.bitmap.set(byte_index, old_byte | (1u8 << bit));
        proof {
            let ghost fi = frame_index as int;
            assert forall|i: int| 0 <= i < self.bitmap@.len() * 8 implies #[trigger] self.is_used(i)
                == (if i == fi { true } else { old(self).is_used(i) }) by {
                if i / 8 == byte_index as int {
                    lemma_set_bit(old_byte, bit, (i % 8) as u8);
                    assert((i == fi) == ((i % 8) as u8 == bit));
                } else {
                    assert(self.bitmap@[i / 8] == old(self).bitmap@[i / 8]);
                }
            }
            assert(self.used_view() =~= old(self).used_view().update(fi, true));
        }
    }

    /// Marks the frame holding `addr` as free, when the bitmap describes it.
    fn mark_free(&mut self, addr: u64)
        ensures
            final(self).total_pages == old(self).total_pages,
            final(self).highest_address == old(self).highest_address,
            final(self).last_allocated == old(self).last_allocated,
            final(self).bitmap@.len() == old(self).bitmap@.len(),
            final(self).used_view() == if (addr / 0x1000) / 8 < old(self).bitmap@.len() {
                old(self).used_view().update((addr / 0x1000) as int, false)
            } else {
                old(self).used_view()
            },
    {
        let frame_index = addr / 0x1000;
        let byte_index = frame_index / 8;
        if byte_index < self.bitmap.len() as u64 {
            let bit = (frame_index % 8) as u8;
            let old_byte = self.bitmap[byte_index as usize];
            self.bitmap.set(byte_index as usize, old_byte & !(1u8 << bit));
            proof {
                let ghost fi = frame_index as int;
                assert forall|i: int| 0 <= i < self.bitmap@.len() * 8 implies #[trigger] self.is_used(i)
                    == (if i == fi { false } else { old(self).is_used(i) }) by {
                    if i / 8 == byte_index as int {
                        lemma_clear_bit(old_byte, bit, (i % 8) as u8);
                        assert((i == fi) == ((i % 8) as u8 == bit));
                    } else {
                        assert(self.bitmap@[i / 8] == old(self).bitmap@[i / 8]);
                    }
                }
                assert(self.used_view() =~= old(self).used_view().update(fi, false));
            }
        }
    }

    /// Marks free every frame that stepping through `[base, end)` one frame
    /// at a time passes through.
    fn mark_range_free(&mut self, base: u64, end: u64)
        requires
            old(self).wf(),
            base <= end <= old(self).highest_address,
            old(self).total_pages == pages_for(old(self).highest_address as int),
        ensures
            final(self).wf(),
            final(self).total_pages == old(self).total_pages,
            final(self).highest_address == old(self).highest_address,
            final(self).last_allocated == old(self).last_allocated,
            final(self).bitmap@.len() == old(self).bitmap@.len(),
            forall|idx: int|
                0 <= idx < old(self).bitmap@.len() * 8 ==> #[trigger] final(self).used_view()[idx]
                    == (old(self).used_view()[idx] && !steps_over(base as int, end as int, idx)),
    {
        let ghost len8 = self.bitmap@.len() * 8;
        let mut addr = base;
        while addr < end
            invariant
                base <= addr,
                addr < end + 0x1000,
                addr % 0x1000 == base % 0x1000,
                end <= self.highest_address,
                self.wf(),
                self.bitmap@.len() == old(self).bitmap@.len(),
                len8 == self.bitmap@.len() * 8,
                self.total_pages == old(self).total_pages,
                self.highest_address == old(self).highest_address,
                self.last_allocated == old(self).last_allocated,
                self.total_pages == pages_for(self.highest_address as int),
                forall|idx: int|
                    0 <= idx < len8 ==> #[trigger] self.used_view()[idx] == (
                    old(self).used_view()[idx] && !steps_over(base as int, addr as int, idx)),
            decreases end + 0x1000 - addr,
        {
            self.mark_free(addr);
            proof {
                let fi = (addr / 0x1000) as int;
                assert(fi < self.total_pages);
                assert forall|idx: int| 0 <= idx < len8 implies steps_over(
                    base as int,
                    addr + 0x1000,
                    idx,
                ) == (steps_over(base as int, addr as int, idx) || idx == fi) by {}
            }
            addr = addr + 0x1000;
        }
        proof {
            assert forall|idx: int| 0 <= idx < len8 implies steps_over(
                base as int,
                addr as int,
                idx,
            ) == steps_over(base as int, end as int, idx) by {}
        }
    }

    /// Marks in use every frame of `[base, end)`, `base` frame-aligned.
    fn mark_range_used(&mut self, base: u64, end: u64)
        requires
            old(self).wf(),
            base % 0x1000 == 0,
            base <= end <= old(self).highest_address,
            old(self).total_pages == pages_for(old(self).highest_address as int),
        ensures
            final(self).wf(),
            final(self).total_pages == old(self).total_pages,
            final(self).highest_address == old(self).highest_address,
            final(self).last_allocated == old(self).last_allocated,
            final(self).bitmap@.len() == old(self).bitmap@.len(),
            forall|idx: int|
                0 <= idx < old(self).bitmap@.len() * 8 ==> #[trigger] final(self).used_view()[idx]
                    == (old(self).used_view()[idx] || steps_over(base as int, end as int, idx)),
    {
        let ghost len8 = self.bitmap@.len() * 8;
        let mut addr = base;
        while addr < end
            invariant
                base <= addr,
                addr < end + 0x1000,
                addr % 0x1000 == 0,
                base % 0x1000 == 0,
                end <= self.highest_address,
                self.wf(),
                self.bitmap@.len() == old(self).bitmap@.len(),
                len8 == self.bitmap@.len() * 8,
                self.total_pages == old(self).total_pages,
                self.highest_address == old(self).highest_address,
                self.last_allocated == old(self).last_allocated,
                self.total_pages == pages_for(self.highest_address as int),
                forall|idx: int|
                    0 <= idx < len8 ==> #[trigger] self.used_view()[idx] == (
                    old(self).used_view()[idx] || steps_over(base as int, addr as int, idx)),
            decreases end + 0x1000 - addr,
        {
            let fi = addr / 0x1000;
            assert(fi < self.total_pages);
            self.mark_used(addr);
            proof {
                assert forall|idx: int| 0 <= idx < len8 implies steps_over(
                    base as int,
                    addr + 0x1000,
                    idx,
                ) == (steps_over(base as int, addr as int, idx) || idx == fi) by {}
            }
            addr = addr + 0x1000;
        }
    }

    /// Takes the frame holding `addr` out of the free set, if the bitmap
    /// describes it; a frame it does not describe is never free.
    pub fn reserve_frame(&mut self, addr: u64)
        requires
            old(self).wf(),
        ensures
            final(self).wf(),
            final(self).total_pages == old(self).total_pages,
            final(self).highest_address == old(self).highest_address,
            final(self).bitmap@.len() == old(self).bitmap@.len(),
            !final(self).free_frames().contains(addr),
            final(self).free_frames().subset_of(old(self).free_frames()),
            final(self).free_count() + 1 >= old(self).free_count(),
    {
        let len = self.bitmap.len();
        if (addr / 0x1000) / 8 < len as u64 {
            self.mark_used(addr);
            proof {
                let fi = (addr / 0x1000) as int;
                assert(self.used_view()[fi]);
                assert forall|a: u64| #[trigger] self.free_frames().contains(a) implies old(
                    self,
                ).free_frames().contains(a) by {
                    let i = (a / 0x1000) as int;
                    assert(self.used_view()[i] == old(self).used_view()[i]);
                }
                if old(self).is_allocatable(fi) {
                    old(self).lemma_mark_allocated(*self, fi);
                } else {
                    assert forall|i: int| 0 <= i < self.total_pages implies #[trigger] old(
                        self,
                    ).is_allocatable(i) == self.is_allocatable(i) by {
                        if i != fi {
                            assert(self.used_view()[i] == old(self).used_view()[i]);
                        }
                    }
                    old(self).lemma_count_same(*self, self.total_pages as int);
                }
            }
        } else {
            proof {
                assert(self.total_pages <= self.bitmap@.len() * 8);
            }
        }
    }

    /// Hands out one free frame, scanning cyclically from the frame after
    /// the last successful allocation; `None` once no frame is left.
    pub(crate) fn alloc_frame(&mut self) -> (r: Option<u64>)
        requires
            old(self).wf(),
        ensures
            allocated(*old(self), *final(self), r),
    {
        let total = self.total_pages;
        if total == 0 {
            proof {
                self.lemma_count_zero(0);
                self.lemma_free_frames_empty();
            }
            return None;
        }
        let hint = self.last_allocated % total;
        let mut i: usize = 0;
        while i < total
            invariant
                *self == *old(self),
                self.wf(),
                total == self.total_pages,
                hint < total,
                hint == old(self).scan_start(),
                i <= total,
                forall|k: int|
                    0 <= k < i ==> !#[trigger] self.is_allocatable((hint + k) % (total as int)),
            decreases total - i,
        {
            let frame_idx: usize = ((hint as u64 + i as u64) % (total as u64)) as usize;
            assert(frame_idx as int == (hint + i) % (total as int));
            if frame_idx < RESERVED_LOW_FRAMES {
                assert(!self.is_allocatable(frame_idx as int));
                i += 1;
                continue;
            }
            let byte_idx = frame_idx / 8;
            let bit_idx = (frame_idx % 8) as u8;
            let mask = 1u8 << bit_idx;
            if self.bitmap[byte_idx] & mask == 0 {
                let addr = (frame_idx as u64) * 0x1000;
                if addr >= self.highest_address {
                    assert(!self.is_allocatable(frame_idx as int));
                    i += 1;
                    continue;
                }
                assert(frame_idx < total);
                assert(addr < self.highest_address);
                assert(!bit_is_set(self.bitmap@[(frame_idx / 8) as int], (frame_idx % 8) as int));
                assert(!self.is_used(frame_idx as int));
                assert(self.is_allocatable(frame_idx as int));
                assert(addr / 0x1000 == frame_idx);
                self.mark_used(addr);
                self.last_allocated = frame_idx;
                proof {
                    assert(self.used_view() =~= old(self).used_view().update(frame_idx as int, true));
                    old(self).lemma_mark_allocated(*self, frame_idx as int);
                    lemma_cyclic(hint as int, i as int, total as int);
                    assert(old(self).scan_distance(frame_idx as int) == i);
                    assert forall|j: int|
                        0 <= j < total && #[trigger] old(self).is_allocatable(j) implies old(
                        self,
                    ).scan_distance(frame_idx as int) <= old(self).scan_distance(j) by {
                        lemma_cyclic(hint as int, j, total as int);
                        let d = old(self).scan_distance(j);
                        if d < i {
                            assert(!self.is_allocatable((hint + d) % (total as int)));
                        }
                    }
                    assert(self.free_frames() =~= old(self).free_frames().remove(addr));
                }
                return Some(addr);
            }
            assert(self.is_used(frame_idx as int));
            i += 1;
        }
        proof {
            assert forall|idx: int| 0 <= idx < total implies !self.is_allocatable(idx) by {
                if idx >= hint {
                    let k = idx - hint;
                    lemma_small_mod(idx as nat, total as nat);
                    assert(!self.is_allocatable((hint + k) % (total as int)));
                } else {
                    let k = idx - hint + total;
                    lemma_mod_add_multiples_vanish(idx, total as int);
                    lemma_small_mod(idx as nat, total as nat);
                    assert(!self.is_allocatable((hint + k) % (total as int)));
                }
            }
            self.lemma_count_zero(total as int);
            self.lemma_free_frames_empty();
        }
        None
    }

    /// The count of allocatable frames below `n` is zero exactly when none is.
    proof fn lemma_count_zero(&self, n: int)
        requires
            0 <= n,
        ensures
            (self.count_allocatable(n) == 0) == (forall|i: int|
                0 <= i < n ==> !#[trigger] self.is_allocatable(i)),
        decreases n,
    {
        if n > 0 {
            self.lemma_count_zero(n - 1);
        }
    }

    /// With no frame left to count, no frame address is free.
    proof fn lemma_free_frames_empty(&self)
        requires
            self.count_allocatable(self.total_pages as int) == 0,
        ensures
            self.free_count() == 0,
            self.free_frames().is_empty(),
    {
        self.lemma_count_zero(self.total_pages as int);
        assert(self.free_frames() =~= Set::empty());
    }

    /// Two bitmaps that differ in one allocatable frame only differ by one in
    /// their counts.
    proof fn lemma_count_one_less(&self, other: Self, idx: int, n: int)
        requires
            0 <= idx < n,
            self.is_allocatable(idx),
            !other.is_allocatable(idx),
            forall|i: int| 0 <= i < n && i != idx ==> #[trigger] self.is_allocatable(i)
                == other.is_allocatable(i),
        ensures
            other.count_allocatable(n) + 1 == self.count_allocatable(n),
        decreases n,
    {
        if n - 1 == idx {
            self.lemma_count_same(other, n - 1);
        } else {
            self.lemma_count_one_less(other, idx, n - 1);
        }
    }

    /// Bitmaps that agree on which of the first `n` frames are allocatable
    /// have the same count.
    proof fn lemma_count_same(&self, other: Self, n: int)
        requires
            forall|i: int| 0 <= i < n ==> #[trigger] self.is_allocatable(i)
                == other.is_allocatable(i),
        ensures
            other.count_allocatable(n) == self.count_allocatable(n),
        decreases n,
    {
        if n > 0 {
            self.lemma_count_same(other, n - 1);
        }
    }

    /// Marking one allocatable frame used removes exactly that frame.
    proof fn lemma_mark_allocated(&self, after: Self, idx: int)
        requires
            self.is_allocatable(idx),
            after.total_pages == self.total_pages,
            after.highest_address == self.highest_address,
            after.bitmap@.len() == self.bitmap@.len(),
            self.total_pages <= self.bitmap@.len() * 8,
            after.used_view() == self.used_view().update(idx, true),
        ensures
            !after.is_allocatable(idx),
            forall|i: int| i != idx ==> #[trigger] after.is_allocatable(i) == self.is_allocatable(i),
            after.free_count() + 1 == self.free_count(),
    {
        assert forall|i: int| i != idx implies #[trigger] after.is_allocatable(i)
            == self.is_allocatable(i) by {
            if 0 <= i < self.bitmap@.len() * 8 {
                assert(after.used_view()[i] == self.used_view()[i]);
            }
        }
        assert(after.used_view()[idx]);
        self.lemma_count_one_less(after, idx, self.total_pages as int);
    }

}

/// Stepping `i` frames from `h` and back, wrapping round at `t`.
proof fn lemma_cyclic(h: int, i: int, t: int)
    requires
        0 <= h < t,
        0 <= i < t,
    ensures
        (((h + i) % t) - h + t) % t == i,
        0 <= (i - h + t) % t < t,
        (h + (i - h + t) % t) % t == i,
{
    if h + i < t {
        lemma_small_mod((h + i) as nat, t as nat);
        lemma_mod_add_multiples_vanish(i, t);
        lemma_small_mod(i as nat, t as nat);
    } else {
        lemma_mod_add_multiples_vanish(h + i - t, t);
        lemma_small_mod((h + i - t) as nat, t as nat);
        lemma_small_mod(i as nat, t as nat);
    }
    if i >= h {
        lemma_mod_add_multiples_vanish(i - h, t);
        lemma_small_mod((i - h) as nat, t as nat);
        lemma_small_mod(i as nat, t as nat);
    } else {
        lemma_small_mod((i - h + t) as nat, t as nat);
        lemma_mod_add_multiples_vanish(i, t);
        lemma_small_mod(i as nat, t as nat);
    }
}

/// Number of frames needed to cover `highest` bytes.
pub open spec fn pages_for(highest: int) -> int {
    (highest + 0xFFF) / 0x1000
}

/// Whether `kind` marks memory the allocator may hand out.
fn is_free_region(kind: MemoryKind) -> (r: bool)
    ensures
        r == is_free_kind(kind),
{
    matches!(kind, MemoryKind::Usable | MemoryKind::BootloaderReclaimable)
}

/// Bytes of bitmap needed for `length` bytes of memory, rounded up to a
/// whole number of frames.
pub fn calculate_bitmap_size(length: u64) -> (r: u64)
    requires
        length <= MAX_PHYS_ADDR,
    ensures
        r == bitmap_size_spec(length as int),
{
    let total_pages = (length + 0xFFF) / 0x1000;
    let bitmap_bytes = (total_pages + 7) / 8;
    (bitmap_bytes + 0xFFF) / 0x1000 * 0x1000
}

proof fn lemma_highest_bounds(regions: Seq<MemoryRegion>, n: int)
    requires
        0 <= n <= regions.len(),
        regions_fit(regions),
    ensures
        0 <= highest_free_end(regions, n) <= MAX_PHYS_ADDR,
        forall|j: int|
            0 <= j < n && is_free_kind(#[trigger] regions[j].kind) ==> regions[j].base
                + regions[j].length <= highest_free_end(regions, n),
    decreases n,
{
    if n > 0 {
        lemma_highest_bounds(regions, n - 1);
        assert(regions[n - 1].base + regions[n - 1].length <= MAX_PHYS_ADDR);
    }
}

proof fn lemma_first_fit_found(regions: Seq<MemoryRegion>, size: int, i: int)
    requires
        0 <= i,
        first_fit_from(regions, size, i) is Some,
    ensures
        ({
            let j = first_fit_from(regions, size, i)->0;
            &&& i <= j < regions.len()
            &&& is_free_kind(regions[j].kind)
            &&& regions[j].length >= size
        }),
    decreases regions.len() - i,
{
    if i < regions.len() && !(is_free_kind(regions[i].kind) && regions[i].length >= size) {
        lemma_first_fit_found(regions, size, i + 1);
    }
}

/// Why `mem_map_init` refuses `regions`, if it does.
pub open spec fn map_init_error(regions: Seq<MemoryRegion>) -> Option<FrameInitError> {
    let highest = highest_free_end(regions, regions.len() as int);
    let size = bitmap_size_spec(highest);
    if pages_for(highest) > usize::MAX || size > usize::MAX {
        Some(FrameInitError::BitmapTooLarge)
    } else {
        match first_fit_from(regions, size, 0) {
            None => Some(FrameInitError::NoBitmapRegion),
            Some(i) => if regions[i].base % 0x1000 != 0 {
                Some(FrameInitError::BitmapNotAligned)
            } else {
                None
            },
        }
    }
}

/// `a` is the allocator `mem_map_init` builds from `regions`: it covers the
/// highest free address, its bitmap sits in the first free region large
/// enough, and a frame is in use unless a free region holds it and the
/// bitmap does not.
pub open spec fn built_from(regions: Seq<MemoryRegion>, a: BitmapAllocator) -> bool {
    let highest = highest_free_end(regions, regions.len() as int);
    let size = bitmap_size_spec(highest);
    let loc = regions[first_fit_from(regions, size, 0)->0].base;
    &&& a.wf()
    &&& a.highest_address == highest
    &&& a.total_pages == pages_for(highest)
    &&& a.bitmap@.len() == size
    &&& a.last_allocated == 0
    &&& forall|idx: int|
        0 <= idx < size * 8 ==> #[trigger] a.is_used(idx) == (!freed_by(
            regions,
            regions.len() as int,
            idx,
        ) || steps_over(loc as int, loc + size, idx))
}

/// Allocators built from the same map have the same number of free frames.
pub proof fn lemma_built_same_count(regions: Seq<MemoryRegion>, a: BitmapAllocator, b: BitmapAllocator)
    requires
        built_from(regions, a),
        built_from(regions, b),
    ensures
        a.free_count() == b.free_count(),
{
    assert forall|i: int| 0 <= i < a.total_pages implies #[trigger] a.is_allocatable(i)
        == b.is_allocatable(i) by {
        assert(a.is_used(i) == b.is_used(i));
    }
    a.lemma_count_same(b, a.total_pages as int);
}

/// Builds the frame allocator from the boot memory map: every frame starts
/// in use, the frames of usable and bootloader-reclaimable regions are
/// freed, and the frames holding the bitmap itself are taken again. The
/// bitmap is placed in the first free region large enough to hold it.
pub fn mem_map_init(regions: &Vec<MemoryRegion>) -> (r: Result<BitmapAllocator, FrameInitError>)
    requires
        regions_fit(regions@),
    ensures
        match map_init_error(regions@) {
            Some(e) => r == Err::<BitmapAllocator, FrameInitError>(e),
            None => r is Ok && built_from(regions@, r->Ok_0),
        },
{
    let n = regions.len();
    // Highest address of memory the allocator may hand out.
    let mut highest: u64 = 0;
    let mut i: usize = 0;
    while i < n
        invariant
            n == regions@.len(),
            regions_fit(regions@),
            i <= n,
            highest == highest_free_end(regions@, i as int),
        decreases n - i,
    {
        proof {
            lemma_highest_bounds(regions@, i as int);
        }
        let entry = regions[i];
        assert(entry.base + entry.length <= MAX_PHYS_ADDR);
        if is_free_region(entry.kind) {
            let end = entry.base + entry.length;
            if end > highest {
                highest = end;
            }
        }
        i += 1;
    }
    proof {
        lemma_highest_bounds(regions@, n as int);
    }
    let bitmap_size = calculate_bitmap_size(highest);
    let total_pages = (highest + 0xFFF) / 0x1000;
    if total_pages > usize::MAX as u64 || bitmap_size > usize::MAX as u64 {
        return Err(FrameInitError::BitmapTooLarge);
    }
    // First free region large enough to hold the bitmap.
    let mut j: usize = 0;
    while j < n && !(is_free_region(regions[j].kind) && regions[j].length >= bitmap_size)
        invariant
            n == regions@.len(),
            j <= n,
            first_fit_from(regions@, bitmap_size as int, 0) == first_fit_from(
                regions@,
                bitmap_size as int,
                j as int,
            ),
        decreases n - j,
    {
        j += 1;
    }
    if j == n {
        return Err(FrameInitError::NoBitmapRegion);
    }
    assert(first_fit_from(regions@, bitmap_size as int, 0) == Some(j as int));
    let bitmap_location = regions[j].base;
    if bitmap_location % 0x1000 != 0 {
        return Err(FrameInitError::BitmapNotAligned);
    }
    let size = bitmap_size as usize;
    let mut allocator = BitmapAllocator {
        bitmap: vec![0xFFu8; size],
        total_pages: total_pages as usize,
        highest_address: highest,
        last_allocated: 0,
    };
    assert forall|idx: int| 0 <= idx < size * 8 implies #[trigger] allocator.used_view()[idx] by {
        assert(allocator.bitmap@[idx / 8] == 0xFFu8);
        lemma_full_byte((idx % 8) as u8);
    }
    // Free the frames of every usable region.
    let ghost size8 = size * 8;
    let mut i: usize = 0;
    while i < n
        invariant
            n == regions@.len(),
            regions_fit(regions@),
            i <= n,
            allocator.wf(),
            allocator.bitmap@.len() == size,
            allocator.total_pages == total_pages,
            allocator.highest_address == highest,
            allocator.last_allocated == 0,
            highest == highest_free_end(regions@, n as int),
            total_pages == pages_for(highest as int),
            size8 == size * 8,
            forall|idx: int|
                0 <= idx < size8 ==> #[trigger] allocator.used_view()[idx] == !freed_by(
                    regions@,
                    i as int,
                    idx,
                ),
        decreases n - i,
    {
        let entry = regions[i];
        proof {
            lemma_highest_bounds(regions@, n as int);
        }
        assert(entry.base + entry.length <= MAX_PHYS_ADDR);
        if is_free_region(entry.kind) {
            allocator.mark_range_free(entry.base, entry.base + entry.length);
        }
        i += 1;
    }
    // Take back the frames that hold the bitmap.
    let bitmap_end = bitmap_location + bitmap_size;
    proof {
        lemma_first_fit_found(regions@, bitmap_size as int, 0);
    }
    assert(bitmap_end <= highest);
    allocator.mark_range_used(bitmap_location, bitmap_end);
    proof {
        assert forall|idx: int| 0 <= idx < size8 implies #[trigger] allocator.is_used(idx) == (
        !freed_by(regions@, n as int, idx) || steps_over(
            bitmap_location as int,
            bitmap_end as int,
            idx,
        )) by {
            assert(allocator.used_view()[idx] == allocator.is_used(idx));
        }
    }
    Ok(allocator)
}

/// Hands out a free physical frame from the allocator, if it is set up.
pub fn allocate_frame(slot: &mut Option<BitmapAllocator>) -> (r: Option<u64>)
    requires
        match *old(slot) {
            Some(a) => a.wf(),
            None => true,
        },
    ensures
        match *old(slot) {
            None => r is None && *final(slot) == *old(slot),
            Some(before) => match *final(slot) {
                Some(after) => allocated(before, after, r),
                None => false,
            },
        },
{
    match slot {
        Some(allocator) => allocator.alloc_frame(),
        None => None,
    }
}

/// Gives the frame holding `addr` back to the allocator, if it is set up.
/// Nothing checks that the frame was in use.
pub fn deallocate_frame(slot: &mut Option<BitmapAllocator>, addr: u64)
    ensures
        match *old(slot) {
            None => *final(slot) == *old(slot),
            Some(before) => match *final(slot) {
                Some(after) => deallocated(before, after, addr),
                None => false,
            },
        },
{
    match slot {
        Some(allocator) => allocator.mark_free(addr),
        None => {},
    }
}

/// Every frame an allocation returns is frame-aligned, above the reserved
/// low memory, and below the highest address of usable memory.
pub proof fn lemma_allocation_in_range(before: BitmapAllocator, after: BitmapAllocator, a: u64)
    requires
        allocated(before, after, Some(a)),
    ensures
        a % 0x1000 == 0,
        0x10_0000 <= a < before.highest_address,
        a / 0x1000 < before.total_pages,
        after.is_used((a / 0x1000) as int),
{
    assert(before.free_frames().contains(a));
    assert(after.used_view()[(a / 0x1000) as int]);
}

/// Two allocations in a row never hand out the same frame.
pub proof fn lemma_allocations_distinct(
    s0: BitmapAllocator,
    s1: BitmapAllocator,
    s2: BitmapAllocator,
    a: u64,
    b: u64,
)
    requires
        allocated(s0, s1, Some(a)),
        allocated(s1, s2, Some(b)),
    ensures
        a != b,
{
    assert(s1.free_frames().contains(b));
    assert(!s1.free_frames().contains(a));
}

/// Giving back one frame leaves every other frame that was out of the free
/// set out of it: a live allocation is never handed out twice.
pub proof fn lemma_deallocation_keeps_live(
    before: BitmapAllocator,
    after: BitmapAllocator,
    freed: u64,
    a: u64,
)
    requires
        before.wf(),
        deallocated(before, after, freed),
        !before.free_frames().contains(a),
        a / 0x1000 != freed / 0x1000,
    ensures
        !after.free_frames().contains(a),
{
    if a % 0x1000 == 0 && (a / 0x1000) < before.total_pages {
        let idx = (a / 0x1000) as int;
        assert(after.used_view()[idx] == before.used_view()[idx]);
    }
}

/// A frame of usable memory that is given back is free again.
pub proof fn lemma_deallocation_frees(before: BitmapAllocator, after: BitmapAllocator, addr: u64)
    requires
        before.wf(),
        deallocated(before, after, addr),
        addr % 0x1000 == 0,
        RESERVED_LOW_FRAMES <= addr / 0x1000 < before.total_pages,
        addr < before.highest_address,
    ensures
        after.free_frames().contains(addr),
{
    let idx = (addr / 0x1000) as int;
    assert(!after.used_view()[idx]);
}

proof fn lemma_free_frame_counted(s: BitmapAllocator, addr: u64)
    requires
        s.free_frames().contains(addr),
    ensures
        s.free_count() > 0,
{
    s.lemma_count_zero(s.total_pages as int);
    assert(s.is_allocatable((addr / 0x1000) as int));
}

proof fn lemma_unreturned_stays_free(
    states: Seq<BitmapAllocator>,
    results: Seq<Option<u64>>,
    addr: u64,
    k: int,
)
    requires
        states.len() == results.len() + 1,
        forall|i: int|
            0 <= i < results.len() ==> allocated(#[trigger] states[i], states[i + 1], results[i]),
        states[0].free_frames().contains(addr),
        0 <= k <= results.len(),
        forall|i: int| 0 <= i < k ==> #[trigger] results[i] != Some(addr),
    ensures
        states[k].free_frames().contains(addr),
        states[k].free_count() + k == states[0].free_count(),
    decreases k,
{
    if k > 0 {
        lemma_unreturned_stays_free(states, results, addr, k - 1);
        assert(allocated(states[k - 1], states[k], results[k - 1]));
        lemma_free_frame_counted(states[k - 1], addr);
        match results[k - 1] {
            Some(b) => {
                assert(b != addr);
                assert(states[k].free_frames().contains(addr));
            },
            None => {},
        }
    }
}

/// Under allocation pressure a free frame is handed out again: among as many
/// successive allocations as there are free frames, one returns it.
pub proof fn lemma_free_frame_reused(
    states: Seq<BitmapAllocator>,
    results: Seq<Option<u64>>,
    addr: u64,
)
    requires
        states.len() == results.len() + 1,
        forall|i: int|
            0 <= i < results.len() ==> allocated(#[trigger] states[i], states[i + 1], results[i]),
        states[0].free_frames().contains(addr),
        results.len() == states[0].free_count(),
    ensures
        exists|i: int| 0 <= i < results.len() && results[i] == Some(addr),
{
    if forall|i: int| 0 <= i < results.len() ==> #[trigger] results[i] != Some(addr) {
        let n = results.len() as int;
        lemma_unreturned_stays_free(states, results, addr, n);
        lemma_free_frame_counted(states[n], addr);
    }
}

proof fn lemma_count_down(states: Seq<BitmapAllocator>, results: Seq<Option<u64>>, k: int)
    requires
        states.len() == results.len() + 1,
        forall|i: int|
            0 <= i < results.len() ==> allocated(#[trigger] states[i], states[i + 1], results[i]),
        0 <= k <= results.len(),
        forall|i: int| 0 <= i < k ==> #[trigger] results[i] is Some,
    ensures
        states[k].free_count() + k == states[0].free_count(),
    decreases k,
{
    if k > 0 {
        lemma_count_down(states, results, k - 1);
        assert(allocated(states[k - 1], states[k], results[k - 1]));
    }
}

/// Allocating until exhaustion hands out exactly as many frames as were
/// free: when `n` allocations succeed and the next one fails, `n` is the
/// number of free frames at the start, and the frames are pairwise distinct.
pub proof fn lemma_allocations_until_exhaustion(
    states: Seq<BitmapAllocator>,
    results: Seq<Option<u64>>,
)
    requires
        states.len() == results.len() + 1,
        results.len() >= 1,
        forall|i: int|
            0 <= i < results.len() ==> allocated(#[trigger] states[i], states[i + 1], results[i]),
        forall|i: int| 0 <= i < results.len() - 1 ==> #[trigger] results[i] is Some,
        results.last() is None,
    ensures
        results.len() - 1 == states[0].free_count(),
        forall|i: int, j: int|
            0 <= i < j < results.len() - 1 ==> #[trigger] results[i] != #[trigger] results[j],
{
    let n = results.len() - 1;
    lemma_count_down(states, results, n);
    assert(allocated(states[n], states[n + 1], results[n]));
    assert forall|i: int, j: int|
        0 <= i < j < results.len() - 1 implies #[trigger] results[i] != #[trigger] results[j] by {
        lemma_stays_allocated(states, results, i, j);
    }
}

proof fn lemma_stays_allocated(
    states: Seq<BitmapAllocator>,
    results: Seq<Option<u64>>,
    i: int,
    j: int,
)
    requires
        states.len() == results.len() + 1,
        forall|k: int|
            0 <= k < results.len() ==> allocated(#[trigger] states[k], states[k + 1], results[k]),
        0 <= i < j < results.len(),
        results[i] is Some,
    ensures
        !states[j].free_frames().contains(results[i]->0),
        results[j] != results[i],
    decreases j - i,
{
    assert(allocated(states[j - 1], states[j], results[j - 1]));
    assert(allocated(states[j], states[j + 1], results[j]));
    if j - 1 > i {
        lemma_stays_allocated(states, results, i, j - 1);
    } else {
        assert(allocated(states[i], states[i + 1], results[i]));
    }
    match results[j - 1] {
        Some(b) => {
            assert(states[j].free_frames() == states[j - 1].free_frames().remove(b));
        },
        None => {},
    }
}

} // verus!
