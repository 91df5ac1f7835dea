use kernel_core::frame::{
    allocate_frame, calculate_bitmap_size, deallocate_frame, mem_map_init, BitmapAllocator,
    FrameInitError, MemoryKind, MemoryRegion,
};

fn region(base: u64, length: u64, kind: MemoryKind) -> MemoryRegion {
    MemoryRegion { base, length, kind }
}

/// 636 KiB of low memory and 63 MiB above the first MiB, with reserved holes.
fn pc_memory_map() -> Vec<MemoryRegion> {
    vec![
        region(0x0, 0x9f000, MemoryKind::Usable),
        region(0x9f000, 0x61000, MemoryKind::Reserved),
        region(0x100000, 0x3F00000, MemoryKind::Usable),
        region(0xfd00_0000, 0x30_0000, MemoryKind::Framebuffer),
    ]
}

fn pc_allocator() -> BitmapAllocator {
    mem_map_init(&pc_memory_map()).unwrap()
}

#[test]
fn bitmap_size_rounds_up_to_pages() {
    assert_eq!(calculate_bitmap_size(0), 0);
    assert_eq!(calculate_bitmap_size(1), 4096);
    assert_eq!(calculate_bitmap_size(0x400_0000), 4096);
    assert_eq!(calculate_bitmap_size(0x1_0000_0000), 131072);
    assert_eq!(calculate_bitmap_size(0x1_0000_1000), 135168);
}

#[test]
fn init_sizes_bitmap_to_highest_usable_address() {
    let a = pc_allocator();
    assert_eq!(a.highest_address, 0x400_0000);
    assert_eq!(a.total_pages, 16384);
    assert_eq!(a.bitmap.len(), 4096);
    assert_eq!(a.last_allocated, 0);
}

#[test]
fn init_fails_without_room_for_bitmap() {
    let map = vec![region(0x100000, 0x800, MemoryKind::Usable)];
    assert_eq!(mem_map_init(&map).err(), Some(FrameInitError::NoBitmapRegion));
}

#[test]
fn init_fails_on_unaligned_bitmap_region() {
    let map = vec![region(0x100800, 0x10_0000, MemoryKind::Usable)];
    assert_eq!(mem_map_init(&map).err(), Some(FrameInitError::BitmapNotAligned));
}

#[test]
fn init_ignores_reserved_regions_for_highest_address() {
    let map = vec![
        region(0x100000, 0x100000, MemoryKind::BootloaderReclaimable),
        region(0x8000_0000, 0x1000, MemoryKind::AcpiNvs),
    ];
    let a = mem_map_init(&map).unwrap();
    assert_eq!(a.highest_address, 0x200000);
    assert_eq!(a.total_pages, 512);
}

#[test]
fn allocations_are_distinct_aligned_and_in_range() {
    let mut slot = Some(pc_allocator());
    let mut seen = std::collections::HashSet::new();
    for _ in 0..2000 {
        let a = allocate_frame(&mut slot).unwrap();
        assert_eq!(a % 4096, 0);
        assert!(a >= 0x100000);
        assert!(a < 0x400_0000);
        assert!(seen.insert(a));
    }
}

#[test]
fn allocation_without_allocator_is_none() {
    let mut slot: Option<BitmapAllocator> = None;
    assert_eq!(allocate_frame(&mut slot), None);
    deallocate_frame(&mut slot, 0x200000);
    assert!(slot.is_none());
}

#[test]
fn exhaustion_count_matches_usable_memory() {
    let mut slot = Some(pc_allocator());
    let mut count: u64 = 0;
    while allocate_frame(&mut slot).is_some() {
        count += 1;
    }
    // All usable memory, less the reserved first MiB; the bitmap sits in
    // low memory, so it costs nothing above it.
    let usable: u64 = 0x9f000 + 0x3F00000;
    let reserved_low: u64 = 0x9f000;
    assert_eq!(count * 4096, usable - reserved_low);
    assert_eq!(allocate_frame(&mut slot), None);
}

#[test]
fn exhaustion_count_excludes_bitmap_pages() {
    let map = vec![region(0x100000, 0x3F00000, MemoryKind::Usable)];
    let mut slot = Some(mem_map_init(&map).unwrap());
    let mut count: u64 = 0;
    while allocate_frame(&mut slot).is_some() {
        count += 1;
    }
    assert_eq!(count * 4096, 0x3F00000 - 4096);
}

#[test]
fn bitmap_frame_is_never_handed_out() {
    let map = vec![region(0x100000, 0x100000, MemoryKind::Usable)];
    let mut slot = Some(mem_map_init(&map).unwrap());
    while let Some(a) = allocate_frame(&mut slot) {
        assert_ne!(a, 0x100000);
    }
}

#[test]
fn freed_frame_is_reused_under_pressure() {
    let mut slot = Some(pc_allocator());
    let first = allocate_frame(&mut slot).unwrap();
    deallocate_frame(&mut slot, first);
    let mut reused = false;
    while let Some(a) = allocate_frame(&mut slot) {
        if a == first {
            reused = true;
        }
    }
    assert!(reused);
}

#[test]
fn allocation_resumes_after_last_hint() {
    let mut slot = Some(pc_allocator());
    let a = allocate_frame(&mut slot).unwrap();
    let b = allocate_frame(&mut slot).unwrap();
    assert_eq!(a, 0x100000);
    assert_eq!(b, 0x101000);
    deallocate_frame(&mut slot, a);
    // The scan continues after the last success before wrapping round.
    assert_eq!(allocate_frame(&mut slot), Some(0x102000));
}

#[test]
fn only_one_frame_left_is_returned_then_none() {
    let map = vec![region(0x0, 0x102000, MemoryKind::Usable)];
    let mut slot = Some(mem_map_init(&map).unwrap());
    // Frames 256 and 257 are above the reserved first MiB.
    assert_eq!(allocate_frame(&mut slot), Some(0x100000));
    assert_eq!(allocate_frame(&mut slot), Some(0x101000));
    assert_eq!(allocate_frame(&mut slot), None);
    deallocate_frame(&mut slot, 0x100000);
    assert_eq!(allocate_frame(&mut slot), Some(0x100000));
}

#[test]
fn reserved_frame_is_not_handed_out() {
    let map = vec![region(0x0, 0x102000, MemoryKind::Usable)];
    let mut a = mem_map_init(&map).unwrap();
    a.reserve_frame(0x100000);
    let mut slot = Some(a);
    assert_eq!(allocate_frame(&mut slot), Some(0x101000));
    assert_eq!(allocate_frame(&mut slot), None);
}
