use blog_kernel::memory::{
    create_example_mapping, map_to, translate_addr, translate_addr_inner, BootInfoFrameAllocator,
    EmptyFrameAllocator, FrameAllocator, MapToError, MemoryRegion, MemoryRegionType, PageTables,
    Translation, HUGE_PAGE, PRESENT, WRITABLE,
};

const ROOT: u64 = 0x1000;

fn region(start: u64, end: u64, region_type: MemoryRegionType) -> MemoryRegion {
    MemoryRegion { start_addr: start, end_addr: end, region_type }
}

fn indices(addr: u64) -> [usize; 4] {
    [
        ((addr >> 39) & 0x1ff) as usize,
        ((addr >> 30) & 0x1ff) as usize,
        ((addr >> 21) & 0x1ff) as usize,
        ((addr >> 12) & 0x1ff) as usize,
    ]
}

/// Tables for `addr` at 0x2000, 0x3000, 0x4000 below the root, the last one
/// mapping the page to `leaf`.
fn chain(addr: u64, leaf: u64) -> PageTables {
    let mut pt = PageTables::new(ROOT);
    let [i4, i3, i2, i1] = indices(addr);
    pt.write_entry(ROOT, i4, 0x2000 | PRESENT | WRITABLE);
    pt.write_entry(0x2000, i3, 0x3000 | PRESENT | WRITABLE);
    pt.write_entry(0x3000, i2, 0x4000 | PRESENT | WRITABLE);
    pt.write_entry(0x4000, i1, leaf | PRESENT | WRITABLE);
    pt
}

#[test]
fn translate_full_chain_adds_page_offset() {
    let addr: u64 = 0x0000_1234_5678_9abc;
    let pt = chain(addr, 0x7_7000);
    assert_eq!(translate_addr_inner(&pt, addr), Translation::Mapped(0x7_7abc));
    assert_eq!(translate_addr(&pt, addr), Some(0x7_7abc));
}

#[test]
fn translate_uses_each_level_index() {
    let addr: u64 = 0x0000_1234_5678_9abc;
    let pt = chain(addr, 0x7_7000);
    // Differs from `addr` only in the level 3 index.
    let other = addr ^ (1 << 30);
    assert_eq!(translate_addr(&pt, other), None);
    // Differs only in the level 1 index.
    let other = addr ^ (1 << 12);
    assert_eq!(translate_addr(&pt, other), None);
}

#[test]
fn translate_absent_entry_is_not_mapped() {
    let addr: u64 = 0x0000_0040_0020_1008;
    let mut pt = chain(addr, 0x9000);
    let [_, _, i2, _] = indices(addr);
    pt.write_entry(0x3000, i2, 0x4000 | WRITABLE);
    assert_eq!(translate_addr_inner(&pt, addr), Translation::NotMapped);
    assert_eq!(translate_addr(&pt, addr), None);
    let empty = PageTables::new(ROOT);
    assert_eq!(translate_addr(&empty, addr), None);
}

#[test]
fn translate_huge_parent_entry() {
    let addr: u64 = 0x0000_0040_0020_1008;
    let mut pt = chain(addr, 0x9000);
    let [_, i3, _, _] = indices(addr);
    pt.write_entry(0x2000, i3, 0x4000_0000 | PRESENT | HUGE_PAGE);
    assert_eq!(translate_addr_inner(&pt, addr), Translation::HugeFrame);
}

#[test]
fn translate_twice_gives_same_result() {
    let addr: u64 = 0x0000_0040_0020_1008;
    let pt = chain(addr, 0x9000);
    let first = translate_addr(&pt, addr);
    let second = translate_addr(&pt, addr);
    assert_eq!(first, Some(0x9008));
    assert_eq!(first, second);
}

#[test]
fn allocator_single_region_scenario() {
    let mut a = BootInfoFrameAllocator::init(vec![region(0, 8192, MemoryRegionType::Usable)]);
    assert_eq!(a.allocate_frame(), Some(0));
    assert_eq!(a.allocate_frame(), Some(4096));
    assert_eq!(a.allocate_frame(), None);
    assert_eq!(a.allocate_frame(), None);
}

#[test]
fn allocator_k_frames_increasing_then_exhausted() {
    let map = vec![
        region(0, 0x1000, MemoryRegionType::FrameZero),
        region(0x1000, 0x4000, MemoryRegionType::Usable),
        region(0x4000, 0x10000, MemoryRegionType::Kernel),
        region(0x10000, 0x12000, MemoryRegionType::Usable),
        region(0x12000, 0x20000, MemoryRegionType::Reserved),
    ];
    let mut a = BootInfoFrameAllocator::init(map);
    let mut got = Vec::new();
    for _ in 0..5 {
        got.push(a.allocate_frame().expect("a usable frame"));
    }
    assert_eq!(got, vec![0x1000, 0x2000, 0x3000, 0x10000, 0x11000]);
    assert!(got.windows(2).all(|w| w[0] < w[1]));
    assert_eq!(a.allocate_frame(), None);
}

#[test]
fn allocator_frames_of_unaligned_region() {
    // Only the aligned addresses inside the region are handed out.
    let mut a = BootInfoFrameAllocator::init(vec![region(0x1800, 0x3000, MemoryRegionType::Usable)]);
    assert_eq!(a.allocate_frame(), Some(0x2000));
    assert_eq!(a.allocate_frame(), None);
    let mut b = BootInfoFrameAllocator::init(vec![region(0x1000, 0x2800, MemoryRegionType::Usable)]);
    assert_eq!(b.allocate_frame(), Some(0x1000));
    assert_eq!(b.allocate_frame(), Some(0x2000));
    assert_eq!(b.allocate_frame(), None);
}

#[test]
fn allocator_empty_map_and_empty_allocator() {
    let mut a = BootInfoFrameAllocator::init(Vec::new());
    assert_eq!(a.allocate_frame(), None);
    let mut e = EmptyFrameAllocator;
    assert_eq!(e.allocate_frame(), None);
}

#[test]
fn map_then_translate_lands_in_frame() {
    let mut pt = PageTables::new(ROOT);
    let mut a = BootInfoFrameAllocator::init(vec![region(0x10_0000, 0x11_0000, MemoryRegionType::Usable)]);
    let page: u64 = 0x0000_5555_4444_3000;
    assert_eq!(map_to(&mut pt, page, 0xabc000, PRESENT | WRITABLE, &mut a), Ok(()));
    assert_eq!(translate_addr(&pt, page), Some(0xabc000));
    assert_eq!(translate_addr(&pt, page + 0x123), Some(0xabc123));
    assert_eq!(translate_addr(&pt, page + 0xfff), Some(0xabcfff));
    // Three tables were created, so the fourth frame is next.
    assert_eq!(a.allocate_frame(), Some(0x10_3000));
}

#[test]
fn map_twice_reports_already_mapped() {
    let mut pt = PageTables::new(ROOT);
    let mut a = BootInfoFrameAllocator::init(vec![region(0x10_0000, 0x11_0000, MemoryRegionType::Usable)]);
    let page: u64 = 0x20_0000;
    assert_eq!(map_to(&mut pt, page, 0x5000, PRESENT, &mut a), Ok(()));
    assert_eq!(
        map_to(&mut pt, page, 0x6000, PRESENT | WRITABLE, &mut a),
        Err(MapToError::PageAlreadyMapped)
    );
    assert_eq!(translate_addr(&pt, page + 8), Some(0x5008));
    assert_eq!(a.allocate_frame(), Some(0x10_3000));
}

#[test]
fn map_neighbouring_page_reuses_tables() {
    let mut pt = PageTables::new(ROOT);
    let mut a = BootInfoFrameAllocator::init(vec![region(0x10_0000, 0x11_0000, MemoryRegionType::Usable)]);
    assert_eq!(map_to(&mut pt, 0x40_0000, 0x5000, PRESENT, &mut a), Ok(()));
    assert_eq!(map_to(&mut pt, 0x40_1000, 0x6000, PRESENT, &mut a), Ok(()));
    assert_eq!(translate_addr(&pt, 0x40_0010), Some(0x5010));
    assert_eq!(translate_addr(&pt, 0x40_1010), Some(0x6010));
    assert_eq!(a.allocate_frame(), Some(0x10_3000));
}

#[test]
fn map_without_frames_fails() {
    let mut pt = PageTables::new(ROOT);
    let mut e = EmptyFrameAllocator;
    assert_eq!(
        map_to(&mut pt, 0x40_0000, 0x5000, PRESENT, &mut e),
        Err(MapToError::FrameAllocationFailed)
    );
    let mut one = BootInfoFrameAllocator::init(vec![region(0x10_0000, 0x10_1000, MemoryRegionType::Usable)]);
    let mut pt = PageTables::new(ROOT);
    assert_eq!(
        map_to(&mut pt, 0x40_0000, 0x5000, PRESENT, &mut one),
        Err(MapToError::FrameAllocationFailed)
    );
}

#[test]
fn map_into_existing_chain_needs_no_frame() {
    let addr: u64 = 0x0000_0040_0020_1000;
    let mut pt = chain(addr, 0x9000);
    let mut e = EmptyFrameAllocator;
    let next = addr + 0x1000;
    assert_eq!(map_to(&mut pt, next, 0xa000, PRESENT, &mut e), Ok(()));
    assert_eq!(translate_addr(&pt, next + 4), Some(0xa004));
    assert_eq!(translate_addr(&pt, addr + 4), Some(0x9004));
}

#[test]
fn map_below_huge_parent_fails() {
    let addr: u64 = 0x0000_0040_0020_1000;
    let mut pt = chain(addr, 0x9000);
    let [_, _, i2, _] = indices(addr);
    pt.write_entry(0x3000, i2, 0x20_0000 | PRESENT | HUGE_PAGE);
    let mut e = EmptyFrameAllocator;
    assert_eq!(
        map_to(&mut pt, addr, 0xa000, PRESENT, &mut e),
        Err(MapToError::ParentEntryHugePage)
    );
}

#[test]
fn example_mapping_reaches_vga_buffer() {
    let mut pt = PageTables::new(ROOT);
    let mut a = BootInfoFrameAllocator::init(vec![region(0x10_0000, 0x11_0000, MemoryRegionType::Usable)]);
    assert_eq!(create_example_mapping(0, &mut pt, &mut a), Ok(()));
    assert_eq!(translate_addr(&pt, 0x640), Some(0xb8640));
    let mut e = EmptyFrameAllocator;
    assert_eq!(
        create_example_mapping(0, &mut pt, &mut e),
        Err(MapToError::PageAlreadyMapped)
    );
}

#[test]
fn map_installs_leaf_entry_and_zeroed_tables() {
    let mut pt = PageTables::new(ROOT);
    let mut a = BootInfoFrameAllocator::init(vec![region(0x10_0000, 0x11_0000, MemoryRegionType::Usable)]);
    let page: u64 = 0x0000_0080_4060_3000;
    let [i4, i3, i2, i1] = indices(page);
    assert_eq!(create_example_mapping(page, &mut pt, &mut a), Ok(()));
    // New tables at 0x100000 (level 3), 0x101000 (level 2), 0x102000 (level 1).
    assert_eq!(pt.read_entry(ROOT, i4), 0x10_0000 | PRESENT | WRITABLE);
    assert_eq!(pt.read_entry(0x10_0000, i3), 0x10_1000 | PRESENT | WRITABLE);
    assert_eq!(pt.read_entry(0x10_1000, i2), 0x10_2000 | PRESENT | WRITABLE);
    assert_eq!(pt.read_entry(0x10_2000, i1), 0xb8000 | PRESENT | WRITABLE);
    for (frame, used) in [(0x10_0000u64, i3), (0x10_1000, i2), (0x10_2000, i1)] {
        for i in 0..512 {
            if i != used {
                assert_eq!(pt.read_entry(frame, i), 0);
            }
        }
    }
}

#[test]
fn map_keeps_other_translations() {
    let addr: u64 = 0x0000_0040_0020_1000;
    let mut pt = chain(addr, 0x9000);
    let mut a = BootInfoFrameAllocator::init(vec![region(0x10_0000, 0x11_0000, MemoryRegionType::Usable)]);
    let far: u64 = 0x0000_7000_0000_0000;
    let before_near = translate_addr(&pt, addr + 0x10);
    let before_other = translate_addr(&pt, addr + 0x2000);
    assert_eq!(map_to(&mut pt, far, 0xc000, PRESENT, &mut a), Ok(()));
    assert_eq!(translate_addr(&pt, addr + 0x10), before_near);
    assert_eq!(translate_addr(&pt, addr + 0x2000), before_other);
    assert_eq!(translate_addr(&pt, far + 0x1000), None);
    assert_eq!(translate_addr(&pt, far + 0x10), Some(0xc010));
}

#[test]
fn failed_allocation_leaves_page_unmapped() {
    let mut pt = PageTables::new(ROOT);
    let mut two = BootInfoFrameAllocator::init(vec![region(0x10_0000, 0x10_2000, MemoryRegionType::Usable)]);
    let page: u64 = 0x40_0000;
    assert_eq!(
        create_example_mapping(page, &mut pt, &mut two),
        Err(MapToError::FrameAllocationFailed)
    );
    assert_eq!(translate_addr(&pt, page), None);
    assert_eq!(translate_addr_inner(&pt, page), Translation::NotMapped);
    assert_eq!(two.allocate_frame(), None);
}
