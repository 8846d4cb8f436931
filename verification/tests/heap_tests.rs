//! Heap bootstrap and bump-allocator behavior.

use rust_os::addr::{Frame, Page};
use rust_os::allocator::{init_heap, init_heap_range, KernelHeap, HEAP_SIZE, HEAP_START};
use rust_os::memory::{BootInfoFrameAllocator, MapToError, MappingFlags, init, translate_addr};
use rust_os::memory_map::{MemoryMap, MemoryRegion};

/// 256 usable frames at 0x100000, comfortably enough for 25 heap pages and
/// their intermediate tables; the root table frame lies outside the supply.
fn boot_setup() -> (rust_os::memory::Mapper, BootInfoFrameAllocator) {
    let map = MemoryMap {
        regions: vec![
            MemoryRegion { start: 0, end: 0x1000, usable: false },
            MemoryRegion { start: 0x100000, end: 0x200000, usable: true },
        ],
    };
    (init(Frame { base: 0x1000 }), BootInfoFrameAllocator::init(map))
}

#[test]
fn heap_window_maps_exactly_25_pages() {
    let (mut mapper, mut fa) = boot_setup();
    let heap = init_heap(&mut mapper, &mut fa).expect("heap initialization failed");
    // 25 pages back the 102400-byte window, plus 3 intermediate tables
    assert_eq!(fa.next, 28);
    assert_eq!(heap.start, HEAP_START);
    assert_eq!(heap.size, HEAP_SIZE);
    // every page of the window is mapped, to pairwise distinct frames
    let mut frames: Vec<u64> = Vec::new();
    for i in 0..25u64 {
        let phys = translate_addr(HEAP_START + i * 4096, &mapper)
            .expect("heap page must be mapped");
        assert!(!frames.contains(&phys));
        frames.push(phys);
    }
    // the page right past the window stays unmapped
    assert_eq!(translate_addr(HEAP_START + 25 * 4096, &mapper), None);
    // translation keeps the in-page offset
    assert_eq!(translate_addr(HEAP_START + 5, &mapper), Some(frames[0] + 5));
}

#[test]
fn heap_bootstrap_fails_without_frames() {
    let mut mapper = init(Frame { base: 0x1000 });
    let mut fa = BootInfoFrameAllocator::init(MemoryMap { regions: vec![] });
    let r = init_heap(&mut mapper, &mut fa);
    assert_eq!(r.err(), Some(MapToError::FrameAllocationFailed));
}

#[test]
fn heap_bootstrap_fails_on_premapped_window() {
    let (mut mapper, mut fa) = boot_setup();
    // something already sits on a page of the window
    let r = mapper.map_to(Page { base: HEAP_START + 4096 }, Frame { base: 0x9000 },
        MappingFlags { writable: true }, &mut fa);
    assert_eq!(r, Ok(()));
    let r = init_heap(&mut mapper, &mut fa);
    assert_eq!(r.err(), Some(MapToError::PageAlreadyMapped));
}

#[test]
fn unaligned_window_still_spans_whole_pages() {
    let (mut mapper, mut fa) = boot_setup();
    // a window of one byte crossing nothing: exactly one page to back
    let heap = init_heap_range(&mut mapper, &mut fa, 0x5000_0000_1000, 8)
        .expect("heap initialization failed");
    assert_eq!(heap.size, 8);
    assert!(translate_addr(0x5000_0000_1000, &mapper).is_some());
    assert_eq!(translate_addr(0x5000_0000_2000, &mapper), None);
}

#[test]
fn window_crossing_a_page_boundary_maps_both_pages() {
    let (mut mapper, mut fa) = boot_setup();
    // 16 bytes straddling the boundary: both pages must be backed
    init_heap_range(&mut mapper, &mut fa, 0x5000_0000_1ff8, 16)
        .expect("heap initialization failed");
    assert!(translate_addr(0x5000_0000_1000, &mapper).is_some());
    assert!(translate_addr(0x5000_0000_2000, &mapper).is_some());
    assert_eq!(translate_addr(0x5000_0000_3000, &mapper), None);
    // two backing frames and three intermediate tables were consumed
    assert_eq!(fa.next, 5);
}

#[test]
fn written_value_reads_back_identical() {
    let (mut mapper, mut fa) = boot_setup();
    let mut heap = init_heap(&mut mapper, &mut fa).expect("heap initialization failed");
    let a = heap.allocate(8).expect("allocation failed");
    heap.write_word(a, 0xdead_beef_cafe_f00d);
    assert_eq!(heap.read_word(a), 0xdead_beef_cafe_f00d);
    let b = heap.allocate(16).expect("allocation failed");
    heap.write_word(b, 23);
    heap.write_word(b + 8, 42);
    assert_eq!(heap.read_word(a), 0xdead_beef_cafe_f00d);
    assert_eq!(heap.read_word(b), 23);
    assert_eq!(heap.read_word(b + 8), 42);
}

#[test]
fn allocation_beyond_remaining_capacity_fails() {
    let (mut mapper, mut fa) = boot_setup();
    let mut heap = init_heap(&mut mapper, &mut fa).expect("heap initialization failed");
    assert_eq!(heap.allocate(HEAP_SIZE + 8), None);
    let a = heap.allocate(HEAP_SIZE).expect("whole window must fit");
    assert_eq!(a, HEAP_START);
    assert_eq!(heap.allocate(8), None);
    // releasing the only allocation restores the whole capacity
    heap.deallocate();
    assert_eq!(heap.allocate(HEAP_SIZE), Some(HEAP_START));
}

#[test]
fn growable_sequence_of_a_thousand_integers_sums_correctly() {
    let (mut mapper, mut fa) = boot_setup();
    let mut heap = init_heap(&mut mapper, &mut fa).expect("heap initialization failed");
    // a growable sequence emulated over the heap: doubling capacity,
    // copying, releasing the old buffer
    let mut cap: u64 = 1;
    let mut len: u64 = 0;
    let mut buf = heap.allocate(8 * cap).expect("allocation failed");
    for i in 0..1000u64 {
        if len == cap {
            let new_cap = cap * 2;
            let new_buf = heap.allocate(8 * new_cap).expect("allocation failed");
            for j in 0..len {
                let v = heap.read_word(buf + 8 * j);
                heap.write_word(new_buf + 8 * j, v);
            }
            heap.deallocate();
            buf = new_buf;
            cap = new_cap;
        }
        heap.write_word(buf + 8 * len, i);
        len += 1;
    }
    let mut sum: u64 = 0;
    for j in 0..len {
        sum += heap.read_word(buf + 8 * j);
    }
    assert_eq!(sum, 499500);
}

#[test]
fn ten_thousand_short_lived_allocations_never_exhaust_the_heap() {
    let (mut mapper, mut fa) = boot_setup();
    let mut heap = init_heap(&mut mapper, &mut fa).expect("heap initialization failed");
    for i in 0..10_000u64 {
        let a = heap.allocate(8).expect("allocation failed");
        heap.write_word(a, i);
        assert_eq!(heap.read_word(a), i);
        heap.deallocate();
    }
    // after everything was released, the aggregate size still fits at once
    assert!(heap.allocate(10_000 * 8).is_some());
}

#[test]
fn fresh_heap_has_full_capacity() {
    let heap = KernelHeap {
        start: 0x4000_0000_0000,
        size: 64,
        next_offset: 0,
        allocations: 0,
        words: vec![0; 8],
    };
    let mut heap = heap;
    assert_eq!(heap.allocate(64), Some(0x4000_0000_0000));
    assert_eq!(heap.allocate(8), None);
}
