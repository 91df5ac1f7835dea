//! Bringing up memory management: the frame allocator from the boot memory
//! map, the mapper over the active tables, and the initial heap.
use vstd::prelude::*;
use crate::frame::{
    BitmapAllocator, FrameInitError, MemoryRegion, built_from, lemma_built_same_count, map_init_error,
    mem_map_init, regions_fit,
};
use crate::heap::{HEAP_SIZE, HEAP_START, HeapError, HeapRegion, init_heap};
use crate::paging::{MapError, OffsetPageTable, init_paging};

verus! {

/// Why memory management could not be brought up.
#[derive(Clone, Copy, Debug, PartialEq, Eq, Structural)]
pub enum MemoryInitError {
    Frames(FrameInitError),
    Paging(MapError),
    Heap(HeapError),
}

/// Memory management once up: every table frame is kept out of the free
/// set, and every byte of the committed heap is mapped.
pub struct KernelMemory {
    pub frames: BitmapAllocator,
    pub mapper: OffsetPageTable,
    pub heap: HeapRegion,
}

impl KernelMemory {
    pub open spec fn wf(&self) -> bool {
        &&& self.frames.wf()
        &&& self.mapper.wf()
        &&& self.mapper.reserved_in(self.frames)
        &&& self.heap.wf()
        &&& self.heap.backed_by(self.mapper)
    }
}

/// Sets up the frame allocator from `regions`, keeps the frame of the
/// top-level table at `level_4_addr` out of it, sets up the mapper (which
/// maps the VGA text buffer) and maps the initial heap.
pub fn init(regions: &Vec<MemoryRegion>, level_4_addr: u64, hhdm_offset: u64) -> (r: Result<
    KernelMemory,
    MemoryInitError,
>)
    requires
        regions_fit(regions@),
    ensures
        match map_init_error(regions@) {
            Some(e) => r == Err::<KernelMemory, MemoryInitError>(MemoryInitError::Frames(e)),
            None => {
                &&& forall|a: BitmapAllocator|
                    built_from(regions@, a) && #[trigger] a.free_count() >= 4 + 4 * (HEAP_SIZE
                        / 0x1000) ==> r is Ok
                &&& r matches Err(MemoryInitError::Frames(_)) ==> false
                &&& r matches Err(MemoryInitError::Paging(e)) ==> e == MapError::FrameAllocationFailed
                    && forall|a: BitmapAllocator| built_from(regions@, a) ==> #[trigger] a.free_count() < 4
                &&& r matches Err(MemoryInitError::Heap(e)) ==> e == HeapError::OutOfFrames && forall|
                    a: BitmapAllocator,
                | built_from(regions@, a) ==> #[trigger] a.free_count() < 4 + 4 * (HEAP_SIZE / 0x1000)
            },
        },
        r is Ok ==> {
            let k = r->Ok_0;
            &&& k.wf()
            &&& k.heap.start == HEAP_START
            &&& k.heap.size == HEAP_SIZE
            &&& k.mapper.level_4_addr == level_4_addr
            &&& k.mapper.translate(0xb8000) is Some
        },
{
    let mut frames = match mem_map_init(regions) {
        Ok(f) => f,
        Err(e) => {
            return Err(MemoryInitError::Frames(e));
        },
    };
    let ghost f0 = frames;
    proof {
        assert forall|a: BitmapAllocator| built_from(regions@, a) implies #[trigger] a.free_count()
            == f0.free_count() by {
            lemma_built_same_count(regions@, a, f0);
        }
    }
    frames.reserve_frame(level_4_addr);
    let ghost f1 = frames;
    let mut mapper = match init_paging(&mut frames, level_4_addr, hhdm_offset) {
        Ok(m) => m,
        Err(e) => {
            return Err(MemoryInitError::Paging(e));
        },
    };
    let ghost m0 = mapper;
    let heap = match init_heap(&mut mapper, &mut frames) {
        Ok(h) => h,
        Err(e) => {
            return Err(MemoryInitError::Heap(e));
        },
    };
    proof {
        assert(m0.translate(0xb8000) is Some);
    }
    Ok(KernelMemory { frames, mapper, heap })
}

impl KernelMemory {
    /// Grows the heap after its free list failed to serve `request` bytes
    /// (see `HeapRegion::grow_for`). Returns how many bytes the free list may
    /// take over at the old end of the heap.
    pub fn grow_heap(&mut self, request: u64) -> (r: Result<u64, HeapError>)
        requires
            old(self).wf(),
        ensures
            final(self).wf(),
            final(self).heap.start == old(self).heap.start,
            old(self).mapper.keeps_mappings(final(self).mapper),
            ({
                let grow = if request > crate::heap::MIN_GROW {
                    request
                } else {
                    crate::heap::MIN_GROW
                };
                let old_end = old(self).heap.start + old(self).heap.size;
                &&& r is Ok ==> r->Ok_0 == grow && final(self).heap.size == old(self).heap.size
                    + grow
                &&& r is Err ==> final(self).heap.size == old(self).heap.size
                &&& old_end + grow <= crate::heap::HEAP_LIMIT ==> crate::heap::grew(
                    old(self).mapper,
                    old(self).frames,
                    final(self).mapper,
                    final(self).frames,
                    old_end,
                    old_end + grow,
                    r is Ok,
                )
                &&& old_end + grow > crate::heap::HEAP_LIMIT ==> r == Err::<u64, HeapError>(
                    HeapError::RegionExhausted,
                )
                &&& old_end + grow <= crate::heap::HEAP_LIMIT && old(self).frames.free_count() >= 4
                    * crate::heap::pages_between(old_end, old_end + grow) ==> r is Ok
            }),
    {
        self.heap.grow_for(&mut self.mapper, &mut self.frames, request)
    }
}

} // verus!
