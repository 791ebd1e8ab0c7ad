use mind_core::paging::{
    Space, TableMemory, ADDRESS, NX, PAGE, USER_EXIT, USER_HEAP, USER_IMAGE, USER_STACK, WRITE,
};
use mind_core::user_heap::{BlockMemory, Heap, HEAP_MAX_BYTES};
use std::collections::HashMap;

const KERNEL_TABLES: u64 = 0x0F00_0000;

struct Frames {
    next: u64,
    tables: HashMap<u64, [u64; 512]>,
    retired: Vec<u64>,
    released: Vec<(u64, u64)>,
}

impl Frames {
    fn new() -> Self {
        Frames { next: 0x1000_0000, tables: HashMap::new(), retired: Vec::new(), released: Vec::new() }
    }
}

impl TableMemory for Frames {
    fn allocate_table(&mut self) -> Option<u64> {
        let frame = self.next;
        self.next += PAGE;
        self.tables.insert(frame, [0; 512]);
        Some(frame)
    }
    fn write_entry(&mut self, frame: u64, index: usize, value: u64) {
        self.tables.get_mut(&frame).unwrap()[index] = value;
    }
    fn retire_table(&mut self, frame: u64) {
        self.retired.push(frame);
    }
}

impl BlockMemory for Frames {
    fn allocate_block(&mut self, size: u64) -> Option<u64> {
        let block = self.next;
        self.next += size;
        Some(block)
    }
    fn release_block(&mut self, physical: u64, size: u64) {
        self.released.push((physical, size));
    }
}

fn leaf(frames: &Frames, space: &Space, address: u64) -> u64 {
    let mut table = space.root();
    let mut entry = 0;
    for shift in [39, 30, 21, 12] {
        entry = frames.tables[&table][((address >> shift) & 511) as usize];
        assert_eq!(entry & 5, 5);
        table = entry & ADDRESS;
    }
    entry
}

#[test]
fn same_virtual_address_maps_private_frames_in_distinct_cr3s() {
    let mut frames = Frames::new();
    let mut a = Space::new(&mut frames, KERNEL_TABLES).unwrap();
    let mut b = Space::new(&mut frames, KERNEL_TABLES).unwrap();
    a.map(&mut frames, USER_IMAGE, 0x100000, PAGE, false, true).unwrap();
    b.map(&mut frames, USER_IMAGE, 0x200000, PAGE, false, true).unwrap();
    assert_ne!(a.root(), b.root());
    assert_eq!(a.readable(USER_IMAGE + 31), Some(0x10001f));
    assert_eq!(b.readable(USER_IMAGE + 31), Some(0x20001f));
    assert!(a.readable(0x100000).is_none());
    assert!(b.readable(0x200000).is_none());
}

#[test]
fn permissions_are_rx_or_rw_nx_and_guard_pages_stay_unmapped() {
    let mut frames = Frames::new();
    let mut space = Space::new(&mut frames, KERNEL_TABLES).unwrap();
    space.map(&mut frames, USER_IMAGE, 0x100000, PAGE, false, true).unwrap();
    space.map(&mut frames, USER_STACK, 0x200000, PAGE, true, false).unwrap();
    assert_eq!(leaf(&frames, &space, USER_IMAGE) & (WRITE | NX), 0);
    assert_eq!(leaf(&frames, &space, USER_STACK) & (WRITE | NX), WRITE | NX);
    assert!(space.readable(USER_STACK - 1).is_none());
    assert!(space.readable(USER_STACK + PAGE).is_none());
    assert!(space.map(&mut frames, USER_EXIT, 0x300000, PAGE, true, true).is_err());
    assert!(space.map(&mut frames, USER_IMAGE, 0x300000, PAGE, true, false).is_err());
}

#[test]
fn validates_full_buffers_including_overflow_holes_and_supervisor_ranges() {
    let mut frames = Frames::new();
    let mut space = Space::new(&mut frames, KERNEL_TABLES).unwrap();
    space
        .map(&mut frames, USER_STACK, 0x200000, PAGE * 2, true, false)
        .unwrap();
    assert!(space.validate_read(USER_STACK + PAGE - 2, 4));
    assert!(!space.validate_read(USER_STACK + PAGE * 2 - 2, 4));
    assert!(!space.validate_read(u64::MAX - 1, 4));
    assert!(!space.validate_read(0x100000, 4));
    assert!(!space.validate_read(0x8000_0000_0000, 1));
}

#[test]
fn overlap_is_atomic_and_unmap_reclaims_only_empty_tables() {
    let mut frames = Frames::new();
    let mut space = Space::new(&mut frames, KERNEL_TABLES).unwrap();
    space
        .map(&mut frames, USER_HEAP + PAGE, 0x100000, PAGE, true, false)
        .unwrap();
    let count = space.count();
    assert!(space
        .map(&mut frames, USER_HEAP, 0x200000, PAGE * 2, true, false)
        .is_err());
    assert_eq!(space.count(), count);
    assert!(space.readable(USER_HEAP).is_none());
    assert_eq!(space.readable(USER_HEAP + PAGE), Some(0x100000));
    space
        .map(&mut frames, USER_HEAP + PAGE * 3, 0x300000, PAGE, true, false)
        .unwrap();
    space.unmap(&mut frames, USER_HEAP + PAGE, PAGE);
    assert_eq!(space.count(), count);
    assert_eq!(space.readable(USER_HEAP + PAGE * 3), Some(0x300000));
    space.unmap(&mut frames, USER_HEAP + PAGE * 3, PAGE);
    assert_eq!(space.count(), 1); // shared kernel tables were never owned
    assert!(space.readable(USER_HEAP + PAGE * 3).is_none());
}

#[test]
fn new_space_holds_the_kernel_tables_in_root_entry_zero() {
    let mut frames = Frames::new();
    let space = Space::new(&mut frames, KERNEL_TABLES).unwrap();
    assert_eq!(frames.tables[&space.root()][0], KERNEL_TABLES | 3);
    assert_eq!(space.count(), 1);
    assert!(space.readable(USER_IMAGE).is_none());
}

#[test]
fn invalid_mappings_are_refused() {
    let mut frames = Frames::new();
    let mut space = Space::new(&mut frames, KERNEL_TABLES).unwrap();
    assert_eq!(space.map(&mut frames, USER_IMAGE - PAGE, 0, PAGE, true, false), Err("INVALID USER MAPPING"));
    assert_eq!(space.map(&mut frames, USER_IMAGE + 1, 0, PAGE, true, false), Err("INVALID USER MAPPING"));
    assert_eq!(space.map(&mut frames, USER_IMAGE, 1, PAGE, true, false), Err("INVALID USER MAPPING"));
    assert_eq!(space.map(&mut frames, USER_HEAP, 0, 0x0300_0000, true, false), Err("INVALID USER MAPPING"));
    assert_eq!(space.map(&mut frames, USER_IMAGE, u64::MAX - 4095, 2 * PAGE, true, false), Err("INVALID USER MAPPING"));
    assert_eq!(space.count(), 1);
}

#[test]
fn unmap_then_map_again_reuses_the_range() {
    let mut frames = Frames::new();
    let mut space = Space::new(&mut frames, KERNEL_TABLES).unwrap();
    space.map(&mut frames, USER_HEAP, 0x500000, 3 * PAGE, true, false).unwrap();
    assert_eq!(space.count(), 4);
    space.unmap(&mut frames, USER_HEAP, 3 * PAGE);
    assert_eq!(space.count(), 1);
    assert_eq!(frames.retired.len(), 3);
    space.map(&mut frames, USER_HEAP, 0x700000, PAGE, true, false).unwrap();
    assert_eq!(space.readable(USER_HEAP + 5), Some(0x700005));
}

#[test]
fn table_limit_error_leaves_translations_unchanged() {
    let mut frames = Frames::new();
    let mut space = Space::new(&mut frames, KERNEL_TABLES).unwrap();
    // Each 2 MiB slot needs its own page table: 1 root + PDPT + PD + 29 = 32.
    for slot in 0..29u64 {
        space.map(&mut frames, USER_IMAGE + slot * 0x20_0000, 0x100000, PAGE, false, true).unwrap();
    }
    assert_eq!(space.count(), 32);
    let before = space.readable(USER_IMAGE);
    assert_eq!(
        space.map(&mut frames, USER_IMAGE + 29 * 0x20_0000, 0x100000, PAGE, false, true),
        Err("PAGE TABLE LIMIT")
    );
    assert_eq!(space.count(), 32);
    assert_eq!(space.readable(USER_IMAGE), before);
    assert!(space.readable(USER_IMAGE + 29 * 0x20_0000).is_none());
}

#[test]
fn heap_blocks_have_guard_pages_and_are_reused_after_free() {
    let mut frames = Frames::new();
    let mut space = Space::new(&mut frames, KERNEL_TABLES).unwrap();
    let mut heap = Heap::new();
    for size in [0, u64::MAX, u64::MAX - PAGE, HEAP_MAX_BYTES + 1] {
        assert_eq!(heap.allocate(&mut space, &mut frames, size), None);
    }
    let p = heap.allocate(&mut space, &mut frames, PAGE + 1).unwrap();
    assert_eq!(p % PAGE, 0);
    assert_eq!(p, USER_HEAP + PAGE);
    let q = heap.allocate(&mut space, &mut frames, PAGE).unwrap();
    assert_eq!(q, p + PAGE * 3);
    assert!(space.readable(p + PAGE * 2).is_none());
    for bad in [0, p + 1, p + PAGE, p + PAGE * 2, 0x100000, u64::MAX] {
        assert!(!heap.free(&mut space, &mut frames, bad));
    }
    assert!(heap.free(&mut space, &mut frames, p));
    assert!(space.readable(p).is_none());
    assert!(!heap.free(&mut space, &mut frames, p));
    assert_eq!(frames.released.len(), 1);
    assert_eq!(heap.allocate(&mut space, &mut frames, PAGE + 1), Some(p));
}

#[test]
fn shared_memory_is_mapped_but_not_released() {
    let mut frames = Frames::new();
    let mut space = Space::new(&mut frames, KERNEL_TABLES).unwrap();
    let mut heap = Heap::new();
    let p = heap.map_shared(&mut space, &mut frames, 0x4000_0000, 100).unwrap();
    assert_eq!(space.readable(p + 7), Some(0x4000_0007));
    assert!(heap.free(&mut space, &mut frames, p));
    assert!(frames.released.is_empty());
    assert_eq!(heap.map_shared(&mut space, &mut frames, 0x4000_0001, 100), None);
    assert_eq!(heap.map_shared(&mut space, &mut frames, u64::MAX - 4095, 8192), None);
}

#[test]
fn tables_come_and_go_with_the_pages_they_map() {
    let mut frames = Frames::new();
    let mut space = Space::new(&mut frames, KERNEL_TABLES).unwrap();
    let root = space.root();
    assert_eq!(root % PAGE, 0);
    assert_eq!(space.count(), 1);
    space.map(&mut frames, USER_HEAP, 0x100000, PAGE * 2, true, false).unwrap();
    assert_eq!(space.count(), 4);
    space.map(&mut frames, USER_HEAP + 0x20_0000, 0x300000, PAGE, true, false).unwrap();
    assert_eq!(space.count(), 5);
    space.unmap(&mut frames, USER_HEAP, PAGE);
    assert_eq!(space.count(), 5);
    space.unmap(&mut frames, USER_HEAP + PAGE, PAGE);
    assert_eq!(space.count(), 4);
    space.unmap(&mut frames, USER_HEAP + 0x20_0000, PAGE);
    assert_eq!(space.count(), 1);
    assert_eq!(space.root(), root);
    assert_eq!(frames.retired.len(), 4);
}

#[test]
fn freeing_a_heap_block_gives_back_its_tables_and_memory() {
    let mut frames = Frames::new();
    let mut space = Space::new(&mut frames, KERNEL_TABLES).unwrap();
    let mut heap = Heap::new();
    let a = heap.allocate(&mut space, &mut frames, 3 * PAGE).unwrap();
    assert_eq!(space.count(), 4);
    let entry = leaf(&frames, &space, a);
    assert_eq!(entry & WRITE, WRITE);
    assert_eq!(entry & NX, NX);
    let physical = space.readable(a).unwrap();
    assert!(heap.free(&mut space, &mut frames, a));
    assert_eq!(space.count(), 1);
    assert_eq!(frames.released, vec![(physical, 3 * PAGE)]);
    assert!(space.readable(a).is_none());
}

#[test]
fn ending_a_task_releases_every_heap_block() {
    let mut frames = Frames::new();
    let mut space = Space::new(&mut frames, KERNEL_TABLES).unwrap();
    let mut heap = Heap::new();
    let a = heap.allocate(&mut space, &mut frames, PAGE).unwrap();
    let pa = space.readable(a).unwrap();
    let b = heap.allocate(&mut space, &mut frames, 2 * PAGE).unwrap();
    let pb = space.readable(b).unwrap();
    let shared = heap.map_shared(&mut space, &mut frames, 0x4000_0000, PAGE).unwrap();
    heap.release_all(&mut space, &mut frames);
    assert!(space.readable(a).is_none());
    assert!(space.readable(b).is_none());
    assert!(space.readable(shared).is_none());
    assert_eq!(space.count(), 1);
    assert_eq!(frames.released, vec![(pa, PAGE), (pb, 2 * PAGE)]);
    assert_eq!(heap.allocate(&mut space, &mut frames, PAGE), Some(a));
}

#[test]
fn a_root_frame_from_memory_decides_whether_a_space_is_made() {
    let mut frames = Frames::new();
    assert_eq!(Space::with_root(&mut frames, None, KERNEL_TABLES).err(), Some("OUT OF MEMORY"));
    assert_eq!(Space::with_root(&mut frames, Some(0x1234), KERNEL_TABLES).err(), Some("INVALID PAGE TABLE FRAME"));
    frames.tables.insert(0x5000_0000, [0; 512]);
    let space = Space::with_root(&mut frames, Some(0x5000_0000), KERNEL_TABLES).unwrap();
    assert_eq!(space.root(), 0x5000_0000);
    assert_eq!(space.count(), 1);
}

/// Table memory that has run dry.
struct Dry;

impl TableMemory for Dry {
    fn allocate_table(&mut self) -> Option<u64> {
        None
    }
    fn write_entry(&mut self, _frame: u64, _index: usize, _value: u64) {}
    fn retire_table(&mut self, _frame: u64) {}
}

impl BlockMemory for Dry {
    fn allocate_block(&mut self, _size: u64) -> Option<u64> {
        None
    }
    fn release_block(&mut self, _physical: u64, _size: u64) {}
}

#[test]
fn mapping_into_existing_tables_needs_no_memory() {
    let mut frames = Frames::new();
    let mut space = Space::new(&mut frames, KERNEL_TABLES).unwrap();
    space.map(&mut frames, USER_HEAP, 0x100000, PAGE, true, false).unwrap();
    assert_eq!(space.map(&mut Dry, USER_HEAP + PAGE, 0x200000, PAGE, true, false), Ok(()));
    assert_eq!(space.map(&mut Dry, USER_HEAP + 0x20_0000, 0x300000, PAGE, true, false), Err("OUT OF MEMORY"));
    assert_eq!(space.count(), 4);
    let mut fresh = Space::new(&mut frames, KERNEL_TABLES).unwrap();
    fresh.map(&mut frames, USER_HEAP, 0x100000, PAGE, true, false).unwrap();
    let mut heap = Heap::new();
    assert_eq!(heap.map_shared(&mut fresh, &mut Dry, 0x4000_0000, PAGE), Some(USER_HEAP + PAGE));
    assert_eq!(heap.allocate(&mut fresh, &mut Dry, PAGE), None);
}

#[test]
fn a_heap_plan_and_a_block_from_memory_make_an_allocation() {
    let mut frames = Frames::new();
    let mut space = Space::new(&mut frames, KERNEL_TABLES).unwrap();
    let mut heap = Heap::new();
    assert_eq!(heap.plan(0), None);
    assert_eq!(heap.plan(HEAP_MAX_BYTES + 1), None);
    let (slot, address, size) = heap.plan(PAGE + 1).unwrap();
    assert_eq!((slot, size), (0, 2 * PAGE));
    assert_eq!(heap.commit(&mut space, &mut frames, slot, address, size, None), None);
    assert_eq!(heap.commit(&mut space, &mut frames, slot, address, size, Some(0x7000_0000)), Some(address));
    assert_eq!(space.readable(address + 5), Some(0x7000_0005));
}

#[test]
fn the_table_limit_stops_a_mapping_that_needs_too_many_tables() {
    let mut frames = Frames::new();
    let mut space = Space::new(&mut frames, KERNEL_TABLES).unwrap();
    // One page in each of 29 slots takes 3 + 29 = 32 tables, the limit.
    for k in 0..29u64 {
        space.map(&mut frames, USER_IMAGE + k * 0x20_0000, 0x100000, PAGE, false, false).unwrap();
    }
    assert_eq!(space.count(), 32);
    assert_eq!(
        space.map(&mut frames, USER_IMAGE + 29 * 0x20_0000, 0x100000, PAGE, false, false),
        Err("PAGE TABLE LIMIT")
    );
    assert_eq!(space.map(&mut frames, USER_IMAGE + PAGE, 0x100000, PAGE, false, false), Ok(()));
}
