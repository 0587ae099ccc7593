use blog_os::frame::{BootInfoFrameAllocator, MemoryRegion};
use blog_os::heap::{init_heap, LinkedListAllocator, FreeBlock, HEAP_SIZE, HEAP_START};
use blog_os::paging::{MapToError, OffsetPageTable, TranslateError, PRESENT, WRITABLE};
use std::rc::Rc;

fn boot_map() -> Vec<MemoryRegion> {
    vec![
        MemoryRegion { start: 0, end: 0x1000, usable: false },
        MemoryRegion { start: 0x10_0000, end: 0x20_0000, usable: true },
    ]
}

fn overlaps(a: (u64, u64), b: (u64, u64)) -> bool {
    !(a.0 + a.1 <= b.0 || b.0 + b.1 <= a.0)
}

#[test]
fn frames_come_in_map_order_and_run_out() {
    let map = vec![
        MemoryRegion { start: 0x1001, end: 0x4000, usable: true },
        MemoryRegion { start: 0x8000, end: 0x9000, usable: false },
        MemoryRegion { start: 0xa000, end: 0xb800, usable: true },
    ];
    let mut frames = BootInfoFrameAllocator::init(map);
    assert_eq!(frames.allocate_frame(), Some(0x2000));
    assert_eq!(frames.allocate_frame(), Some(0x3000));
    assert_eq!(frames.allocate_frame(), Some(0xa000));
    assert_eq!(frames.allocate_frame(), None);
    assert_eq!(frames.allocate_frame(), None);
    assert_eq!(frames.nth_usable_frame(1), Some(0x3000));
}

#[test]
fn map_then_translate_returns_the_frame() {
    let mut pt = OffsetPageTable::new(0, 0x1000);
    let mut frames = BootInfoFrameAllocator::init(boot_map());
    assert_eq!(pt.map_to(0xdead_beef_f000, 0x50_0000, PRESENT | WRITABLE, &mut frames), Ok(()));
    assert_eq!(pt.translate(0xdead_beef_f000), Ok(0x50_0000));
    assert_eq!(pt.translate(0xdead_beef_f123), Ok(0x50_0000));
    // three child tables were created for the first page
    assert_eq!(frames.next, 3);
    assert_eq!(pt.tables.len(), 3);
}

#[test]
fn translate_of_unmapped_page_fails() {
    let mut pt = OffsetPageTable::new(0, 0x1000);
    let mut frames = BootInfoFrameAllocator::init(boot_map());
    assert_eq!(pt.translate(0), Err(TranslateError::Unmapped));
    pt.map_to(0, 0x50_0000, PRESENT, &mut frames).unwrap();
    assert_eq!(pt.translate(0x1000), Err(TranslateError::Unmapped));
}

#[test]
fn mapping_a_page_twice_is_refused() {
    let mut pt = OffsetPageTable::new(0, 0x1000);
    let mut frames = BootInfoFrameAllocator::init(boot_map());
    assert_eq!(pt.map_to(0x40_0000, 0x50_0000, PRESENT, &mut frames), Ok(()));
    let used = frames.next;
    assert_eq!(
        pt.map_to(0x40_0010, 0x60_0000, PRESENT, &mut frames),
        Err(MapToError::AlreadyMapped)
    );
    assert_eq!(frames.next, used);
    assert_eq!(pt.translate(0x40_0000), Ok(0x50_0000));
}

#[test]
fn a_neighbouring_page_reuses_the_tables() {
    let mut pt = OffsetPageTable::new(0, 0x1000);
    let mut frames = BootInfoFrameAllocator::init(boot_map());
    pt.map_to(0x40_0000, 0x50_0000, PRESENT, &mut frames).unwrap();
    pt.map_to(0x40_1000, 0x60_0000, PRESENT, &mut frames).unwrap();
    assert_eq!(frames.next, 3);
    assert_eq!(pt.translate(0x40_1000), Ok(0x60_0000));
}

#[test]
fn mapping_without_frames_for_tables_fails() {
    let mut pt = OffsetPageTable::new(0, 0x1000);
    let map = vec![MemoryRegion { start: 0x1000, end: 0x3000, usable: true }];
    let mut frames = BootInfoFrameAllocator::init(map);
    assert_eq!(
        pt.map_to(0x40_0000, 0x50_0000, PRESENT, &mut frames),
        Err(MapToError::FrameAllocationFailed)
    );
    assert_eq!(pt.translate(0x40_0000), Err(TranslateError::Unmapped));
}

#[test]
fn heap_init_maps_every_page_of_the_region() {
    let mut pt = OffsetPageTable::new(0, 0x1000);
    let mut frames = BootInfoFrameAllocator::init(boot_map());
    let heap = init_heap(&mut pt, &mut frames, HEAP_START, HEAP_SIZE).unwrap();
    assert_eq!(heap.heap_start, HEAP_START);
    assert_eq!(heap.heap_end, HEAP_START + HEAP_SIZE);
    assert_eq!(heap.free, vec![FreeBlock { addr: HEAP_START, size: HEAP_SIZE }]);
    let mut addr = HEAP_START;
    while addr < HEAP_START + HEAP_SIZE {
        assert!(pt.translate(addr).is_ok());
        addr += 0x1000;
    }
    assert_eq!(pt.translate(HEAP_START + HEAP_SIZE), Err(TranslateError::Unmapped));
    // 25 heap pages, plus three child tables
    assert_eq!(frames.next, 28);
}

#[test]
fn heap_init_fails_without_frames() {
    let mut pt = OffsetPageTable::new(0, 0x1000);
    let map = vec![MemoryRegion { start: 0x1000, end: 0x6000, usable: true }];
    let mut frames = BootInfoFrameAllocator::init(map);
    assert_eq!(
        init_heap(&mut pt, &mut frames, HEAP_START, HEAP_SIZE).err(),
        Some(MapToError::FrameAllocationFailed)
    );
}

#[test]
fn heap_init_fails_on_a_mapped_page() {
    let mut pt = OffsetPageTable::new(0, 0x1000);
    let mut frames = BootInfoFrameAllocator::init(boot_map());
    pt.map_to(HEAP_START + 0x3000, 0x90_0000, PRESENT, &mut frames).unwrap();
    assert_eq!(
        init_heap(&mut pt, &mut frames, HEAP_START, HEAP_SIZE).err(),
        Some(MapToError::AlreadyMapped)
    );
}

#[test]
fn box_vec_and_rc_get_disjoint_regions() {
    let mut pt = OffsetPageTable::new(0, 0x1000);
    let mut frames = BootInfoFrameAllocator::init(boot_map());
    let mut heap = init_heap(&mut pt, &mut frames, HEAP_START, HEAP_SIZE).unwrap();
    let end = HEAP_START + HEAP_SIZE;

    // a 4-byte value
    let value = heap.allocate(4, 4).unwrap();
    assert_eq!(value, HEAP_START);

    // a sequence of 500 four-byte elements, growing by doubling
    let mut cap: u64 = 4;
    let mut buf = heap.allocate(cap * 4, 4).unwrap();
    for len in 0..500u64 {
        if len == cap {
            let bigger = heap.allocate(cap * 8, 4).unwrap();
            heap.deallocate(buf, cap * 4, 4);
            buf = bigger;
            cap *= 2;
        }
    }
    assert_eq!(cap, 512);

    // a shared-count container of three elements: its counts and its buffer
    let rc_box = heap.allocate(40, 8).unwrap();
    let rc_buf = heap.allocate(12, 4).unwrap();
    let shared = Rc::new(vec![1, 2, 3]);
    let cloned = shared.clone();
    assert_eq!(Rc::strong_count(&cloned), 2);
    drop(shared);
    assert_eq!(Rc::strong_count(&cloned), 1);

    let live = [(value, 16), (buf, 2048), (rc_box, 40), (rc_buf, 16)];
    for (i, a) in live.iter().enumerate() {
        assert!(a.0 >= HEAP_START && a.0 + a.1 <= end);
        for b in live.iter().skip(i + 1) {
            assert_ne!(a.0, b.0);
            assert!(!overlaps(*a, *b));
        }
    }
    assert_eq!(rc_box % 8, 0);
}

#[test]
fn allocation_honours_alignment() {
    let mut heap = LinkedListAllocator::new(0x1008, 0x1000);
    let p = heap.allocate(10, 64).unwrap();
    assert_eq!(p, 0x1040);
    // the padding before the block is given up, the rest stays free
    assert_eq!(heap.free, vec![FreeBlock { addr: 0x1050, size: 0xfb8 }]);
    let q = heap.allocate(1, 1).unwrap();
    assert_eq!(q, 0x1050);
}

#[test]
fn allocation_fails_when_nothing_fits() {
    let mut heap = LinkedListAllocator::new(0x1000, 0x100);
    assert_eq!(heap.allocate(0x101, 8), None);
    assert_eq!(heap.allocate(u64::MAX, 8), None);
    assert_eq!(heap.allocate(0x100, 8), Some(0x1000));
    assert_eq!(heap.allocate(1, 1), None);
    assert!(heap.free.is_empty());
}

#[test]
fn a_small_remainder_is_used_up() {
    let mut heap = LinkedListAllocator::new(0x1000, 0x28);
    assert_eq!(heap.allocate(0x20, 8), Some(0x1000));
    assert!(heap.free.is_empty());
}

#[test]
fn freed_blocks_are_reused_first_fit_in_address_order() {
    let mut heap = LinkedListAllocator::new(0x1000, 0x1000);
    let a = heap.allocate(32, 8).unwrap();
    let b = heap.allocate(32, 8).unwrap();
    let c = heap.allocate(32, 8).unwrap();
    assert_eq!((a, b, c), (0x1000, 0x1020, 0x1040));
    heap.deallocate(b, 32, 8);
    heap.deallocate(a, 32, 8);
    assert_eq!(
        heap.free,
        vec![
            FreeBlock { addr: 0x1000, size: 32 },
            FreeBlock { addr: 0x1020, size: 32 },
            FreeBlock { addr: 0x1060, size: 0xfa0 },
        ]
    );
    // no coalescing: 48 bytes fit in neither freed block
    assert_eq!(heap.allocate(48, 8), Some(0x1060));
    assert_eq!(heap.allocate(3, 1), Some(0x1000));
}

#[test]
fn tiny_sizes_take_a_whole_node() {
    let mut heap = LinkedListAllocator::new(0x1000, 0x1000);
    assert_eq!(heap.allocate(1, 1), Some(0x1000));
    assert_eq!(heap.allocate(1, 1), Some(0x1010));
    assert_eq!(heap.allocate(17, 1), Some(0x1020));
    assert_eq!(heap.allocate(1, 1), Some(0x1038));
}

#[test]
fn the_root_functions_hold() {
    assert_eq!(blog_os::async_number(), 42);
    blog_os::trivial_assertion();
}
