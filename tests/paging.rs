use blog_os::allocator::init_heap;
use blog_os::memory::{BootInfoFrameAllocator, MemoryRegion};
use blog_os::paging::{MapError, PageMapper};

fn frames(length: u64) -> BootInfoFrameAllocator {
    BootInfoFrameAllocator::init(vec![MemoryRegion { base: 0, length, usable: true }])
}

#[test]
fn map_page_builds_walk_then_leaf() {
    let mut f = frames(0x10000);
    let mut m = PageMapper::new();
    assert_eq!(m.map_page(0x1000, true, &mut f), Ok(0x3000));
    assert_eq!(m.translate(0x1000), Some((0x3000, true)));
    assert_eq!(m.translate(0x2000), None);
    assert_eq!(m.map_page(0x2000, false, &mut f), Ok(0x4000));
    assert_eq!(m.translate(0x2000), Some((0x4000, false)));
}

#[test]
fn map_page_in_new_region_adds_missing_tables() {
    let mut f = frames(0x10000);
    let mut m = PageMapper::new();
    assert_eq!(m.map_page(0x1000, true, &mut f), Ok(0x3000));
    assert_eq!(m.map_page(0x4000_0000, true, &mut f), Ok(0x6000));
    assert_eq!(m.map_page(0x20_0000, true, &mut f), Ok(0x8000));
}

#[test]
fn mapping_twice_is_rejected_without_using_frames() {
    let mut f = frames(0x10000);
    let mut m = PageMapper::new();
    assert_eq!(m.map_page(0x5000, true, &mut f), Ok(0x3000));
    assert_eq!(m.map_page(0x5000, false, &mut f), Err(MapError::PageAlreadyMapped));
    assert_eq!(m.translate(0x5000), Some((0x3000, true)));
    assert_eq!(f.allocate_frame(), Some(0x4000));
}

#[test]
fn mapping_without_frames_fails() {
    let mut f = frames(0x2000);
    let mut m = PageMapper::new();
    assert_eq!(m.map_page(0x1000, true, &mut f), Err(MapError::FrameAllocationFailed));
    assert_eq!(m.translate(0x1000), None);
    assert_eq!(f.allocate_frame(), None);
}

#[test]
fn heap_init_maps_every_page() {
    let mut f = frames(0x100000);
    let mut m = PageMapper::new();
    let start: usize = 0x4444_4444_0000;
    let mut heap = init_heap(&mut m, &mut f, start, 100 * 1024).ok().unwrap();
    for k in 0..25u64 {
        assert!(m.translate(start as u64 + k * 0x1000).is_some());
    }
    assert_eq!(m.translate(start as u64 + 25 * 0x1000), None);
    assert_eq!(heap.allocate(100 * 1024, 8), Some(start));
}

#[test]
fn heap_init_rounds_partial_page_up() {
    let mut f = frames(0x100000);
    let mut m = PageMapper::new();
    assert!(init_heap(&mut m, &mut f, 0x10_0000, 5000).is_ok());
    assert!(m.translate(0x10_1000).is_some());
    assert_eq!(m.translate(0x10_2000), None);
}

#[test]
fn heap_init_reports_mapped_page() {
    let mut f = frames(0x100000);
    let mut m = PageMapper::new();
    m.map_page(0x10_1000, true, &mut f).unwrap();
    assert_eq!(
        init_heap(&mut m, &mut f, 0x10_0000, 0x4000).err(),
        Some(MapError::PageAlreadyMapped)
    );
    assert!(m.translate(0x10_0000).is_some());
}

#[test]
fn heap_init_reports_exhaustion() {
    let mut f = frames(0x5000);
    let mut m = PageMapper::new();
    assert_eq!(
        init_heap(&mut m, &mut f, 0x10_0000, 0x4000).err(),
        Some(MapError::FrameAllocationFailed)
    );
}
