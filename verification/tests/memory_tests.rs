//! Frame allocation, translation and mapping behavior.

use rust_os::addr::{Frame, Page};
use rust_os::memory::{BootInfoFrameAllocator, EmptyFrameAllocator, MapToError, MappingFlags,
    crate_example_mapping, init, translate_addr};
use rust_os::memory_map::{MemoryMap, MemoryRegion};
use rust_os::page_table::PageTableEntry;

fn small_map() -> MemoryMap {
    MemoryMap {
        regions: vec![
            MemoryRegion { start: 0x10000, end: 0x13000, usable: true },
            MemoryRegion { start: 0x13000, end: 0x20000, usable: false },
            MemoryRegion { start: 0x20000, end: 0x22000, usable: true },
        ],
    }
}

#[test]
fn allocates_usable_frames_in_order() {
    let mut fa = BootInfoFrameAllocator::init(small_map());
    assert_eq!(fa.allocate_frame(), Some(Frame { base: 0x10000 }));
    assert_eq!(fa.allocate_frame(), Some(Frame { base: 0x11000 }));
    assert_eq!(fa.allocate_frame(), Some(Frame { base: 0x12000 }));
    assert_eq!(fa.allocate_frame(), Some(Frame { base: 0x20000 }));
    assert_eq!(fa.allocate_frame(), Some(Frame { base: 0x21000 }));
    assert_eq!(fa.allocate_frame(), None);
    assert_eq!(fa.next, 6);
}

#[test]
fn no_two_allocations_return_the_same_frame() {
    let mut fa = BootInfoFrameAllocator::init(small_map());
    let mut seen: Vec<u64> = Vec::new();
    while let Some(f) = fa.allocate_frame() {
        assert!(!seen.contains(&f.base));
        seen.push(f.base);
    }
    assert_eq!(seen.len(), 5);
}

#[test]
fn empty_region_and_reserved_region_supply_nothing() {
    let map = MemoryMap {
        regions: vec![
            MemoryRegion { start: 0x5000, end: 0x5000, usable: true },
            MemoryRegion { start: 0x6000, end: 0x9000, usable: false },
        ],
    };
    let mut fa = BootInfoFrameAllocator::init(map);
    assert_eq!(fa.allocate_frame(), None);
    assert_eq!(fa.next, 1);
}

#[test]
fn empty_allocator_always_exhausted() {
    let mut fa = EmptyFrameAllocator;
    assert_eq!(fa.allocate_frame(), None);
    assert_eq!(fa.allocate_frame(), None);
}

#[test]
fn translate_on_fresh_mapper_is_absent() {
    let mapper = init(Frame { base: 0x1000 });
    assert_eq!(translate_addr(0, &mapper), None);
    assert_eq!(translate_addr(0x4444_4444_0123, &mapper), None);
    assert_eq!(translate_addr(0x7fff_ffff_ffff, &mapper), None);
}

#[test]
fn translate_after_map_returns_frame_plus_offset() {
    let mut mapper = init(Frame { base: 0x1000 });
    let mut fa = BootInfoFrameAllocator::init(small_map());
    let page = Page { base: 0x4000 };
    let frame = Frame { base: 0x7000 };
    let r = mapper.map_to(page, frame, MappingFlags { writable: true }, &mut fa);
    assert_eq!(r, Ok(()));
    // three intermediate tables were drawn from the allocator
    assert_eq!(fa.next, 3);
    assert_eq!(translate_addr(0x4000, &mapper), Some(0x7000));
    assert_eq!(translate_addr(0x4123, &mapper), Some(0x7123));
    assert_eq!(translate_addr(0x4fff, &mapper), Some(0x7fff));
    // the neighboring pages stay unmapped
    assert_eq!(translate_addr(0x3fff, &mapper), None);
    assert_eq!(translate_addr(0x5000, &mapper), None);
}

#[test]
fn mapping_two_pages_in_one_table_shares_the_tables() {
    let mut mapper = init(Frame { base: 0x1000 });
    let mut fa = BootInfoFrameAllocator::init(small_map());
    let flags = MappingFlags { writable: true };
    assert_eq!(mapper.map_to(Page { base: 0x4000 }, Frame { base: 0x7000 }, flags, &mut fa), Ok(()));
    assert_eq!(mapper.map_to(Page { base: 0x5000 }, Frame { base: 0x8000 }, flags, &mut fa), Ok(()));
    // the second page reuses the tables the first one created
    assert_eq!(fa.next, 3);
    assert_eq!(translate_addr(0x4042, &mapper), Some(0x7042));
    assert_eq!(translate_addr(0x5042, &mapper), Some(0x8042));
}

#[test]
fn read_only_mapping_translates_too() {
    let mut mapper = init(Frame { base: 0x1000 });
    let mut fa = BootInfoFrameAllocator::init(small_map());
    let r = mapper.map_to(Page { base: 0x6000 }, Frame { base: 0xa000 },
        MappingFlags { writable: false }, &mut fa);
    assert_eq!(r, Ok(()));
    assert_eq!(translate_addr(0x6010, &mapper), Some(0xa010));
}

#[test]
fn mapping_an_already_mapped_page_is_a_conflict() {
    let mut mapper = init(Frame { base: 0x1000 });
    let mut fa = BootInfoFrameAllocator::init(small_map());
    let flags = MappingFlags { writable: true };
    let page = Page { base: 0x4000 };
    assert_eq!(mapper.map_to(page, Frame { base: 0x7000 }, flags, &mut fa), Ok(()));
    assert_eq!(
        mapper.map_to(page, Frame { base: 0x8000 }, flags, &mut fa),
        Err(MapToError::PageAlreadyMapped)
    );
    // the first binding still stands
    assert_eq!(translate_addr(0x4000, &mapper), Some(0x7000));
}

#[test]
fn mapping_without_frames_for_tables_fails() {
    let mut mapper = init(Frame { base: 0x1000 });
    let mut fa = BootInfoFrameAllocator::init(MemoryMap { regions: vec![] });
    let r = mapper.map_to(Page { base: 0x4000 }, Frame { base: 0x7000 },
        MappingFlags { writable: true }, &mut fa);
    assert_eq!(r, Err(MapToError::FrameAllocationFailed));
    assert_eq!(translate_addr(0x4000, &mapper), None);
}

#[test]
fn huge_parent_entry_is_rejected() {
    let mut mapper = init(Frame { base: 0x1000 });
    let mut fa = BootInfoFrameAllocator::init(small_map());
    // plant a huge-page entry where the page's level-4 path begins
    mapper.mem.write_entry(0x1000, 0, PageTableEntry {
        present: true, writable: true, huge: true, addr: 0x9000,
    });
    let r = mapper.map_to(Page { base: 0x4000 }, Frame { base: 0x7000 },
        MappingFlags { writable: true }, &mut fa);
    assert_eq!(r, Err(MapToError::ParentEntryHugePage));
}

#[test]
fn example_mapping_binds_the_console_frame() {
    let mut mapper = init(Frame { base: 0x1000 });
    let mut fa = BootInfoFrameAllocator::init(small_map());
    let page = Page { base: 0xdead_b000 };
    crate_example_mapping(page, &mut mapper, &mut fa);
    assert_eq!(translate_addr(0xdead_b000, &mapper), Some(0xb8000));
    assert_eq!(translate_addr(0xdead_b042, &mapper), Some(0xb8042));
}
