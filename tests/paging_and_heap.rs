use kernel_core::frame::{mem_map_init, BitmapAllocator, MemoryKind, MemoryRegion};
use kernel_core::heap::{grow_size, init_heap, HeapError, HEAP_LIMIT, HEAP_SIZE, HEAP_START, MIN_GROW};
use kernel_core::memory::{init, KernelMemory};
use kernel_core::paging::{
    init_paging, MapError, OffsetPageTable, PageTable, PageTableEntry, PageTableFlags, ADDRESS_MASK,
    NO_EXECUTE, PRESENT, USER_ACCESSIBLE, WRITABLE,
};

fn frames_with_64_mib() -> BitmapAllocator {
    let map = vec![
        MemoryRegion { base: 0x0, length: 0x9f000, kind: MemoryKind::Usable },
        MemoryRegion { base: 0x100000, length: 0x3F00000, kind: MemoryKind::Usable },
    ];
    mem_map_init(&map).unwrap()
}

/// A top-level table placed in a frame taken from the allocator itself.
fn mapper_and_frames() -> (OffsetPageTable, BitmapAllocator) {
    let mut frames = frames_with_64_mib();
    let top = 0x3F0_0000;
    frames.reserve_frame(top);
    (OffsetPageTable::new(top, 0xffff_8000_0000_0000), frames)
}

fn free_frames(frames: &BitmapAllocator) -> usize {
    let mut n = 0;
    for idx in 256..frames.total_pages {
        let used = frames.bitmap[idx / 8] & (1 << (idx % 8)) != 0;
        if !used && ((idx as u64) * 4096) < frames.highest_address {
            n += 1;
        }
    }
    n
}

fn present_writable() -> PageTableFlags {
    PageTableFlags::from_bits_truncate(PRESENT | WRITABLE)
}

#[test]
fn entry_holds_address_and_flags() {
    let mut e = PageTableEntry(0);
    assert!(e.is_unused());
    e.set_address(0x5000, present_writable());
    assert_eq!(e.0, 0x5003);
    assert_eq!(e.address(), 0x5000);
    assert_eq!(e.flags().bits(), PRESENT | WRITABLE);
    assert!(!e.is_unused());
    e.set_unused();
    assert!(e.is_unused());
}

#[test]
fn entry_address_is_masked() {
    let mut e = PageTableEntry(0);
    let flags = PageTableFlags::from_bits_truncate(PRESENT | NO_EXECUTE);
    e.set_address(0xfff0_0000_1234_5000, flags);
    assert_eq!(e.address(), 0x0000_0000_1234_5000);
    assert_eq!(e.0, 0x8000_0000_1234_5001);
    assert_eq!(e.0 & ADDRESS_MASK, 0x1234_5000);
}

#[test]
fn flags_truncate_unknown_bits() {
    let f = PageTableFlags::from_bits_truncate(0xFFFF);
    assert_eq!(f.bits(), 0x1FF);
    let g = PageTableFlags::from_bits_truncate(PRESENT).union(PageTableFlags::from_bits_truncate(USER_ACCESSIBLE));
    assert_eq!(g.bits(), 0x5);
    assert!(g.contains(PageTableFlags::from_bits_truncate(PRESENT)));
    assert!(!g.contains(present_writable()));
}

#[test]
fn zeroed_table_has_no_used_entry() {
    let mut t = PageTable::new();
    assert_eq!(t.entries.len(), 512);
    t.entries[7] = PageTableEntry(0x1003);
    t.zero();
    assert!(t.entries.iter().all(|e| e.is_unused()));
}

#[test]
fn map_then_translate() {
    let (mut mapper, mut frames) = mapper_and_frames();
    assert_eq!(mapper.translate_addr(0x4000_1000), None);
    mapper.map(&mut frames, 0x4000_1000, 0x20_0000, present_writable()).unwrap();
    assert_eq!(mapper.translate_addr(0x4000_1000), Some(0x20_0000));
    assert_eq!(mapper.translate_addr(0x4000_1fff), Some(0x20_0000));
    assert_eq!(mapper.translate_addr(0x4000_2000), None);
}

#[test]
fn first_map_creates_three_tables() {
    let (mut mapper, mut frames) = mapper_and_frames();
    let before = free_frames(&frames);
    mapper.map(&mut frames, 0x7000_0000, 0x30_0000, present_writable()).unwrap();
    assert_eq!(free_frames(&frames), before - 3);
    assert_eq!(mapper.tables.len(), 4);
    // A neighbour in the same last-level table needs no new table.
    mapper.map(&mut frames, 0x7000_1000, 0x31_0000, present_writable()).unwrap();
    assert_eq!(free_frames(&frames), before - 3);
    assert_eq!(mapper.tables.len(), 4);
}

#[test]
fn remapping_same_frame_is_flag_update() {
    let (mut mapper, mut frames) = mapper_and_frames();
    let v = 0x5555_0000_0000;
    mapper.map(&mut frames, v, 0x40_0000, present_writable()).unwrap();
    let free_before = free_frames(&frames);
    let tables_before = mapper.tables.len();
    let flags = PageTableFlags::from_bits_truncate(PRESENT | USER_ACCESSIBLE | NO_EXECUTE);
    mapper.map(&mut frames, v, 0x40_0000, flags).unwrap();
    assert_eq!(free_frames(&frames), free_before);
    assert_eq!(mapper.tables.len(), tables_before);
    assert_eq!(mapper.translate_addr(v), Some(0x40_0000));
}

#[test]
fn new_tables_are_not_handed_out_again() {
    let (mut mapper, mut frames) = mapper_and_frames();
    mapper.map(&mut frames, 0x1_0000_0000, 0x50_0000, present_writable()).unwrap();
    let table_frames: Vec<u64> = mapper.tables.keys().copied().collect();
    let mut slot = Some(frames);
    while let Some(f) = kernel_core::frame::allocate_frame(&mut slot) {
        assert!(!table_frames.contains(&f));
    }
}

#[test]
fn map_fails_when_frames_run_out() {
    let map = vec![MemoryRegion { base: 0x0, length: 0x102000, kind: MemoryKind::Usable }];
    let mut frames = mem_map_init(&map).unwrap();
    let mut mapper = OffsetPageTable::new(0x1000, 0);
    // Two free frames, three tables needed.
    assert_eq!(
        mapper.map(&mut frames, 0x4000_0000, 0x9000, present_writable()),
        Err(MapError::FrameAllocationFailed)
    );
    assert_eq!(free_frames(&frames), 0);
}

#[test]
fn init_paging_maps_vga_buffer() {
    let mut frames = frames_with_64_mib();
    let top = 0x3F0_0000;
    frames.reserve_frame(top);
    let mapper = init_paging(&mut frames, top, 0).unwrap();
    assert_eq!(mapper.translate_addr(0xb8000), Some(0xb8000));
    assert_eq!(mapper.level_4_addr, top);
}

#[test]
fn heap_is_mapped_at_boot() {
    let (mut mapper, mut frames) = mapper_and_frames();
    let heap = init_heap(&mut mapper, &mut frames).unwrap();
    assert_eq!(heap.start, HEAP_START);
    assert_eq!(heap.get_heap_size(), HEAP_SIZE);
    assert!(mapper.translate_addr(HEAP_START).is_some());
    assert!(mapper.translate_addr(HEAP_START + HEAP_SIZE - 1).is_some());
    assert_eq!(mapper.translate_addr(HEAP_START + HEAP_SIZE), None);
}

#[test]
fn grow_size_has_a_floor() {
    assert_eq!(grow_size(10), MIN_GROW);
    assert_eq!(grow_size(MIN_GROW), MIN_GROW);
    assert_eq!(grow_size(3 * MIN_GROW + 1), 3 * MIN_GROW + 1);
}

#[test]
fn sbrk_maps_new_pages_before_committing() {
    let (mut mapper, mut frames) = mapper_and_frames();
    let mut heap = init_heap(&mut mapper, &mut frames).unwrap();
    let end = heap.sys_sbrk(&mut mapper, &mut frames, 0x2800).unwrap();
    assert_eq!(end, HEAP_START + HEAP_SIZE);
    assert_eq!(heap.size, HEAP_SIZE + 0x2800);
    assert!(mapper.translate_addr(HEAP_START + HEAP_SIZE + 0x27ff).is_some());
    // The partial page at the end is mapped whole; the next one is not.
    assert!(mapper.translate_addr(HEAP_START + HEAP_SIZE + 0x2fff).is_some());
    assert_eq!(mapper.translate_addr(HEAP_START + HEAP_SIZE + 0x3000), None);
    // Growing again starts from the page after the partial one.
    let before = free_frames(&frames);
    let end2 = heap.sys_sbrk(&mut mapper, &mut frames, 0x800).unwrap();
    assert_eq!(end2, HEAP_START + HEAP_SIZE + 0x2800);
    assert_eq!(free_frames(&frames), before);
    assert_eq!(heap.sys_sbrk(&mut mapper, &mut frames, 0).unwrap(), HEAP_START + HEAP_SIZE + 0x3000);
}

#[test]
fn sbrk_refuses_to_leave_the_lower_half() {
    let (mut mapper, mut frames) = mapper_and_frames();
    let mut heap = init_heap(&mut mapper, &mut frames).unwrap();
    let too_far = HEAP_LIMIT - (HEAP_START + HEAP_SIZE) + 1;
    assert_eq!(
        heap.sys_sbrk(&mut mapper, &mut frames, too_far),
        Err(HeapError::RegionExhausted)
    );
    assert_eq!(heap.size, HEAP_SIZE);
}

#[test]
fn growth_larger_than_free_list_succeeds_once() {
    let mut mem: KernelMemory = init(
        &vec![
            MemoryRegion { base: 0x0, length: 0x9f000, kind: MemoryKind::Usable },
            MemoryRegion { base: 0x100000, length: 0x3F00000, kind: MemoryKind::Usable },
        ],
        0x1000,
        0xffff_8000_0000_0000,
    )
    .unwrap();
    let request = 3 * MIN_GROW + 0x123;
    let grown = mem.grow_heap(request).unwrap();
    assert_eq!(grown, request);
    assert_eq!(mem.heap.size, HEAP_SIZE + request);
    let end = HEAP_START + HEAP_SIZE + request;
    assert!(mem.mapper.translate_addr(end - 1).is_some());
    // A small request still grows by the minimum chunk.
    assert_eq!(mem.grow_heap(16), Ok(MIN_GROW));
    assert_eq!(mem.heap.size, HEAP_SIZE + request + MIN_GROW);
}

#[test]
fn growth_fails_when_frames_run_out() {
    let mut mem = init(
        &vec![MemoryRegion { base: 0x100000, length: 0x180_0000, kind: MemoryKind::Usable }],
        0x1000,
        0,
    )
    .unwrap();
    let size_before = mem.heap.size;
    assert_eq!(mem.grow_heap(0x100_0000), Err(HeapError::OutOfFrames));
    assert_eq!(mem.heap.size, size_before);
}

#[test]
fn memory_init_reports_too_little_memory_for_heap() {
    let r = init(
        &vec![MemoryRegion { base: 0x100000, length: 0x40_0000, kind: MemoryKind::Usable }],
        0x1000,
        0,
    );
    assert_eq!(r.err(), Some(kernel_core::memory::MemoryInitError::Heap(HeapError::OutOfFrames)));
}

#[test]
fn memory_init_reports_frame_allocator_error() {
    let r = init(&vec![MemoryRegion { base: 0x100000, length: 0x800, kind: MemoryKind::Usable }], 0x1000, 0);
    assert_eq!(
        r.err(),
        Some(kernel_core::memory::MemoryInitError::Frames(kernel_core::frame::FrameInitError::NoBitmapRegion))
    );
}

#[test]
fn heap_pages_get_distinct_writable_frames() {
    let (mut mapper, mut frames) = mapper_and_frames();
    let mut heap = init_heap(&mut mapper, &mut frames).unwrap();
    heap.sys_sbrk(&mut mapper, &mut frames, 0x5000).unwrap();
    let mut seen = std::collections::HashSet::new();
    let mut page = HEAP_START;
    while page < HEAP_START + heap.size {
        let f = mapper.translate_addr(page).unwrap();
        assert!(seen.insert(f));
        page += 0x1000;
    }
    assert_eq!(seen.len() as u64, (HEAP_SIZE + 0x5000) / 0x1000);
}

#[test]
fn sbrk_of_zero_takes_nothing() {
    let (mut mapper, mut frames) = mapper_and_frames();
    let mut heap = init_heap(&mut mapper, &mut frames).unwrap();
    let before = free_frames(&frames);
    let tables = mapper.tables.len();
    assert_eq!(heap.sys_sbrk(&mut mapper, &mut frames, 0), Ok(HEAP_START + HEAP_SIZE));
    assert_eq!(free_frames(&frames), before);
    assert_eq!(mapper.tables.len(), tables);
    assert_eq!(heap.size, HEAP_SIZE);
}

#[test]
fn remap_changes_only_the_leaf_entry() {
    let (mut mapper, mut frames) = mapper_and_frames();
    let v = 0x5555_0000_0000;
    mapper.map(&mut frames, v, 0x40_0000, present_writable()).unwrap();
    mapper.map(&mut frames, v + 0x1000, 0x41_0000, present_writable()).unwrap();
    let snapshot: Vec<(u64, Vec<u64>)> =
        mapper.tables.iter().map(|(k, t)| (*k, t.entries.iter().map(|e| e.0).collect())).collect();
    mapper.map(&mut frames, v, 0x40_0000, PageTableFlags::from_bits_truncate(PRESENT)).unwrap();
    let mut changed = 0;
    for (k, entries) in snapshot {
        for (i, old) in entries.iter().enumerate() {
            if mapper.tables[&k].entries[i].0 != *old {
                changed += 1;
                assert_eq!(mapper.tables[&k].entries[i].0, 0x40_0001);
            }
        }
    }
    assert_eq!(changed, 1);
    assert_eq!(mapper.translate_addr(v + 0x1000), Some(0x41_0000));
}
