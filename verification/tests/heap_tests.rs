use rust_os::allocator::bump::BumpAllocator;
use rust_os::allocator::fixed_size_block::FixedSizeBlockAllocator;
use rust_os::allocator::linked_list::LinkedListAllocator;
use rust_os::allocator::{init_heap, Dummy, StrategyKind, HEAP_SIZE, HEAP_START};
use rust_os::memory::{self, BootInfoFrameAllocator, MemoryRegion};

fn boot_setup() -> (memory::OffsetMapper, BootInfoFrameAllocator) {
    let map = vec![MemoryRegion { start: 0, end: 120 * 4096, usable: true }];
    let fa = BootInfoFrameAllocator::init(&map);
    let mapper = memory::init(0x1000_0000_0000);
    (mapper, fa)
}

#[test]
fn bump_allocate_aligned_in_window() {
    let mut a = BumpAllocator::new();
    a.init(HEAP_START, HEAP_SIZE);
    let p = a.allocate(100, 8).unwrap();
    assert_eq!(p % 8, 0);
    assert!(p >= HEAP_START && p + 100 <= HEAP_START + HEAP_SIZE);
    let q = a.allocate(1, 4096).unwrap();
    assert_eq!(q % 4096, 0);
    assert!(q >= p + 100);
}

#[test]
fn bump_full_drain_resets_to_window_start() {
    let mut a = BumpAllocator::new();
    a.init(4096, 4 * 4096);
    let p1 = a.allocate(100, 1).unwrap();
    let p2 = a.allocate(50, 1).unwrap();
    let p3 = a.allocate(10, 1).unwrap();
    assert_eq!(p1, 4096);
    // free in a different order than allocation
    a.deallocate(p2, 50, 1);
    a.deallocate(p1, 100, 1);
    a.deallocate(p3, 10, 1);
    // the whole region is reclaimed: the next allocation starts over
    assert_eq!(a.allocate(8, 1).unwrap(), 4096);
}

#[test]
fn bump_zero_size_is_minimum_block() {
    let mut a = BumpAllocator::new();
    a.init(4096, 4096);
    let p = a.allocate(0, 1).unwrap();
    let q = a.allocate(0, 1).unwrap();
    assert_eq!(p, 4096);
    assert_eq!(q, 4097);
    a.deallocate(p, 0, 1);
    a.deallocate(q, 0, 1);
    assert_eq!(a.allocate(0, 1).unwrap(), 4096);
}

#[test]
fn bump_oversize_fails() {
    let mut a = BumpAllocator::new();
    a.init(HEAP_START, HEAP_SIZE);
    assert!(a.allocate(HEAP_SIZE + 1, 1).is_none());
}

#[test]
fn linked_list_free_then_allocate_returns_same_address() {
    let mut a = LinkedListAllocator::new();
    a.init(0x1000, 0x1000);
    let p = a.allocate(24, 8).unwrap();
    assert_eq!(p, 0x1000);
    a.deallocate(p, 24, 8);
    // no intervening traffic: first fit lands on the freed block again
    assert_eq!(a.allocate(24, 8).unwrap(), p);
}

#[test]
fn linked_list_splits_leftover_region() {
    let mut a = LinkedListAllocator::new();
    a.init(0x1000, 0x1000);
    let p = a.allocate(24, 8).unwrap();
    assert_eq!(p, 0x1000);
    // the leftover tail was reinserted and serves the next request
    let q = a.allocate(8, 8).unwrap();
    assert_eq!(q, 0x1018);
}

#[test]
fn linked_list_oversize_fails() {
    let mut a = LinkedListAllocator::new();
    a.init(0x1000, 0x1000);
    assert!(a.allocate(0x1001, 1).is_none());
    assert!(a.allocate(24, 8).is_some());
}

#[test]
fn linked_list_zero_size_is_minimum_block() {
    let mut a = LinkedListAllocator::new();
    a.init(0x1000, 0x1000);
    let p = a.allocate(0, 1).unwrap();
    assert_eq!(p, 0x1000);
    a.deallocate(p, 0, 1);
    assert_eq!(a.allocate(0, 1).unwrap(), 0x1000);
}

#[test]
fn fixed_size_block_class_reuse() {
    let mut a = FixedSizeBlockAllocator::new(HEAP_START, HEAP_SIZE);
    let p = a.allocate(8, 8).unwrap();
    assert_eq!(p % 8, 0);
    a.deallocate(p, 8, 8);
    // the block came back from the class list, not freshly carved
    assert_eq!(a.allocate(8, 8).unwrap(), p);
}

#[test]
fn fixed_size_block_steady_state_cycles() {
    let mut a = FixedSizeBlockAllocator::new(HEAP_START, HEAP_SIZE);
    // warm the 64-byte class
    let p = a.allocate(40, 8).unwrap();
    a.deallocate(p, 40, 8);
    // repeated same-size cycles stay on the warmed list: same block forever
    for _ in 0..10 {
        let q = a.allocate(40, 8).unwrap();
        assert_eq!(q, p);
        a.deallocate(q, 40, 8);
    }
    // a different class still carves fresh memory right after the first block
    let r = a.allocate(8, 8).unwrap();
    assert_eq!(r, p + 64);
}

#[test]
fn fixed_size_block_oversize_uses_fallback() {
    let mut a = FixedSizeBlockAllocator::new(HEAP_START, HEAP_SIZE);
    let p = a.allocate(5000, 8).unwrap();
    assert_eq!(p % 8, 0);
    assert!(p >= HEAP_START && p + 5000 <= HEAP_START + HEAP_SIZE);
    a.deallocate(p, 5000, 8);
    assert!(a.allocate(HEAP_SIZE + 1, 1).is_none());
}

#[test]
fn dummy_never_allocates() {
    let d = Dummy;
    assert!(d.allocate(8, 8).is_none());
    assert!(d.allocate(0, 1).is_none());
}

#[test]
fn heap_scenario_fixed_size_block() {
    // window start 0x4444_4444_0000, 100 KiB = 25 pages
    let (mut mapper, mut fa) = boot_setup();
    let mut heap = init_heap(&mut mapper, &mut fa, StrategyKind::FixedSizeBlock).unwrap();
    // every page of the window is mapped before the first allocation
    for i in 0..25u64 {
        assert!(mapper.translate(HEAP_START + i * 4096).is_some());
    }
    let p = heap.allocate(8, 8).unwrap();
    assert_eq!(p % 8, 0);
    assert!(p >= HEAP_START && p + 8 <= HEAP_START + HEAP_SIZE);
    heap.deallocate(p, 8, 8);
    // drawn from the class-8 free list, not freshly carved
    assert_eq!(heap.allocate(8, 8).unwrap(), p);
}

#[test]
fn heap_scenario_bump_and_linked_list() {
    for kind in [StrategyKind::Bump, StrategyKind::LinkedList] {
        let (mut mapper, mut fa) = boot_setup();
        let mut heap = init_heap(&mut mapper, &mut fa, kind).unwrap();
        let p = heap.allocate(64, 64).unwrap();
        assert_eq!(p % 64, 0);
        assert!(p >= HEAP_START && p + 64 <= HEAP_START + HEAP_SIZE);
        assert!(heap.allocate(HEAP_SIZE + 1, 1).is_none());
        heap.deallocate(p, 64, 64);
    }
}

#[test]
fn allocations_do_not_overlap() {
    for kind in [StrategyKind::Bump, StrategyKind::LinkedList, StrategyKind::FixedSizeBlock] {
        let (mut mapper, mut fa) = boot_setup();
        let mut heap = init_heap(&mut mapper, &mut fa, kind).unwrap();
        let mut live: Vec<(u64, u64)> = Vec::new();
        for (size, align) in [(8u64, 8u64), (100, 16), (32, 32), (2048, 8), (5000, 8)] {
            let p = heap.allocate(size, align).unwrap();
            assert_eq!(p % align, 0);
            for &(q, s) in &live {
                assert!(p + size <= q || q + s <= p, "overlap between allocations");
            }
            live.push((p, size));
        }
        // free one in the middle and allocate again: still no overlap
        let (q0, s0) = live.remove(2);
        heap.deallocate(q0, 32, 32);
        let _ = s0;
        let p = heap.allocate(16, 16).unwrap();
        for &(q, s) in &live {
            assert!(p + 16 <= q || q + s <= p, "overlap after reuse");
        }
    }
}

#[test]
fn fixed_size_block_zero_size_is_minimum_block() {
    let mut a = FixedSizeBlockAllocator::new(HEAP_START, HEAP_SIZE);
    let p = a.allocate(0, 1).unwrap();
    a.deallocate(p, 0, 1);
    assert_eq!(a.allocate(0, 1).unwrap(), p);
}

#[test]
fn linked_list_small_leftover_is_wasted_not_skipped() {
    // free list holds exactly (0x1000, 32); a request of 24 bytes leaves an
    // 8-byte tail, too small for a node: the region still serves the
    // request and the tail is wasted
    let mut a = LinkedListAllocator::new();
    a.init(0x1000, 32);
    let p = a.allocate(24, 8).unwrap();
    assert_eq!(p, 0x1000);
    // the wasted tail is gone: nothing is left to serve even a tiny request
    assert!(a.allocate(8, 8).is_none());
    a.deallocate(p, 24, 8);
    assert_eq!(a.allocate(24, 8).unwrap(), 0x1000);
}
