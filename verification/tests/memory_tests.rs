use rust_os::allocator::{align_up, init_heap, StrategyKind};
use rust_os::memory::{self, BootInfoFrameAllocator, MapError, MemoryRegion};

#[test]
fn align_up_values() {
    assert_eq!(align_up(10, 8), 16);
    assert_eq!(align_up(16, 8), 16);
    assert_eq!(align_up(0, 4096), 0);
    assert_eq!(align_up(1, 4096), 4096);
    assert_eq!(align_up(4097, 4096), 8192);
    assert_eq!(align_up(7, 1), 7);
}

#[test]
fn frame_allocator_walks_usable_regions_in_order() {
    let map = vec![
        MemoryRegion { start: 0x1000, end: 0x4000, usable: true },
        MemoryRegion { start: 0x4000, end: 0x6000, usable: false },
        MemoryRegion { start: 0x6000, end: 0x8000, usable: true },
    ];
    let mut fa = BootInfoFrameAllocator::init(&map);
    assert_eq!(fa.allocate_frame(), Some(0x1000));
    assert_eq!(fa.allocate_frame(), Some(0x2000));
    assert_eq!(fa.allocate_frame(), Some(0x3000));
    assert_eq!(fa.allocate_frame(), Some(0x6000));
    assert_eq!(fa.allocate_frame(), Some(0x7000));
    assert_eq!(fa.allocate_frame(), None);
    assert_eq!(fa.allocate_frame(), None);
}

#[test]
fn frame_allocator_aligns_region_starts() {
    let map = vec![MemoryRegion { start: 0x1800, end: 0x5000, usable: true }];
    let mut fa = BootInfoFrameAllocator::init(&map);
    // 0x1800 is not frame-aligned: the first whole frame starts at 0x2000
    assert_eq!(fa.allocate_frame(), Some(0x2000));
    assert_eq!(fa.allocate_frame(), Some(0x3000));
    assert_eq!(fa.allocate_frame(), Some(0x4000));
    assert_eq!(fa.allocate_frame(), None);
}

#[test]
fn translate_unmapped_address_is_none() {
    let mapper = memory::init(0xA000_0000_0000);
    assert_eq!(mapper.translate(0), None);
    assert_eq!(mapper.translate(0xdead_beaf_000), None);
    assert_eq!(mapper.translate(u64::MAX), None);
}

#[test]
fn map_then_translate_round_trip() {
    let map = vec![MemoryRegion { start: 0, end: 0x10000, usable: true }];
    let mut fa = BootInfoFrameAllocator::init(&map);
    let mut mapper = memory::init(0xA000_0000_0000);
    let page = 0xdead_beaf_000;
    let frame = fa.allocate_frame().unwrap();
    assert!(mapper.map(page, frame, true, &mut fa).is_ok());
    assert_eq!(mapper.translate(page), Some(frame));
    assert_eq!(mapper.translate(page + 0x123), Some(frame + 0x123));
    // the neighbouring page shares upper levels but has no last-level
    // entry: still unmapped, no partial address is fabricated
    assert_eq!(mapper.translate(page + 0x1000), None);
    assert_eq!(mapper.translate(page ^ 0x8000_0000_0000), None);
}

#[test]
fn remapping_a_mapped_page_is_an_error() {
    let map = vec![MemoryRegion { start: 0, end: 0x10000, usable: true }];
    let mut fa = BootInfoFrameAllocator::init(&map);
    let mut mapper = memory::init(0);
    let page = 0x4444_4444_0000;
    let f1 = fa.allocate_frame().unwrap();
    let f2 = fa.allocate_frame().unwrap();
    assert!(mapper.map(page, f1, true, &mut fa).is_ok());
    assert_eq!(mapper.map(page, f2, true, &mut fa), Err(MapError::PageAlreadyMapped));
    // the old translation is untouched
    assert_eq!(mapper.translate(page), Some(f1));
}

#[test]
fn map_without_frames_is_an_error() {
    let map = vec![MemoryRegion { start: 0, end: 0x2000, usable: true }];
    let mut fa = BootInfoFrameAllocator::init(&map);
    let mut mapper = memory::init(0);
    // two frames exist but three intermediate tables are needed
    let r = mapper.map(0x4444_4444_0000, 0x9000, true, &mut fa);
    assert_eq!(r, Err(MapError::FrameAllocationFailed));
    assert_eq!(mapper.translate(0x4444_4444_0000), None);
}

#[test]
fn init_heap_fails_when_frames_run_out() {
    let map = vec![MemoryRegion { start: 0, end: 0x5000, usable: true }];
    let mut fa = BootInfoFrameAllocator::init(&map);
    let mut mapper = memory::init(0);
    let r = init_heap(&mut mapper, &mut fa, StrategyKind::Bump);
    assert!(matches!(r, Err(MapError::FrameAllocationFailed)));
}

#[test]
fn init_heap_rejects_already_mapped_window_page() {
    let map = vec![MemoryRegion { start: 0, end: 0x200000, usable: true }];
    let mut fa = BootInfoFrameAllocator::init(&map);
    let mut mapper = memory::init(0);
    let frame = fa.allocate_frame().unwrap();
    // one page of the window is mapped beforehand: never treated as
    // pre-existing capacity
    assert!(mapper.map(0x4444_4444_0000 + 3 * 4096, frame, true, &mut fa).is_ok());
    let r = init_heap(&mut mapper, &mut fa, StrategyKind::Bump);
    assert!(matches!(r, Err(MapError::PageAlreadyMapped)));
}

#[test]
fn init_heap_frame_budget_is_exact() {
    // a fresh mapper needs 25 page frames plus 3 intermediate-table frames
    let map = vec![MemoryRegion { start: 0, end: 28 * 4096, usable: true }];
    let mut fa = BootInfoFrameAllocator::init(&map);
    let mut mapper = memory::init(0);
    assert!(init_heap(&mut mapper, &mut fa, StrategyKind::Bump).is_ok());
    assert_eq!(fa.remaining_frames(), 0);

    let short = vec![MemoryRegion { start: 0, end: 27 * 4096, usable: true }];
    let mut fa2 = BootInfoFrameAllocator::init(&short);
    let mut mapper2 = memory::init(0);
    let r = init_heap(&mut mapper2, &mut fa2, StrategyKind::Bump);
    assert!(matches!(r, Err(MapError::FrameAllocationFailed)));
}
