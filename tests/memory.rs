use blog_os::memory::{BootInfoFrameAllocator, MemoryRegion};

fn region(base: u64, length: u64, usable: bool) -> MemoryRegion {
    MemoryRegion { base, length, usable }
}

#[test]
fn frames_skip_reserved_gap() {
    let mut a = BootInfoFrameAllocator::init(vec![
        region(0x0, 0x9000, true),
        region(0x9000, 0x1000, false),
        region(0x10000, 0x100000, true),
    ]);
    for i in 0..9u64 {
        assert_eq!(a.allocate_frame(), Some(i * 0x1000));
    }
    assert_eq!(a.allocate_frame(), Some(0x10000));
    assert_eq!(a.allocate_frame(), Some(0x11000));
}

#[test]
fn frames_exhaust_usable_memory() {
    let mut a = BootInfoFrameAllocator::init(vec![
        region(0x0, 0x9000, true),
        region(0x9000, 0x1000, false),
        region(0x10000, 0x100000, true),
    ]);
    let mut frames = Vec::new();
    while let Some(f) = a.allocate_frame() {
        frames.push(f);
    }
    assert_eq!(frames.len(), 9 + 256);
    assert_eq!(*frames.last().unwrap(), 0x10f000);
    assert!(frames.windows(2).all(|w| w[0] < w[1]));
    assert!(frames.iter().all(|f| *f < 0x9000 || (0x10000..0x110000).contains(f)));
    assert_eq!(a.allocate_frame(), None);
    assert_eq!(a.allocate_frame(), None);
}

#[test]
fn unaligned_region_yields_whole_frames_only() {
    let mut a = BootInfoFrameAllocator::init(vec![region(0x1234, 0x3000, true)]);
    assert_eq!(a.allocate_frame(), Some(0x2000));
    assert_eq!(a.allocate_frame(), Some(0x3000));
    assert_eq!(a.allocate_frame(), None);
}

#[test]
fn unordered_map_is_served_in_ascending_order() {
    let mut a = BootInfoFrameAllocator::init(vec![
        region(0x20000, 0x2000, true),
        region(0x5000, 0x1000, true),
        region(0x0, 0x100000, false),
    ]);
    assert_eq!(a.allocate_frame(), Some(0x5000));
    assert_eq!(a.allocate_frame(), Some(0x20000));
    assert_eq!(a.allocate_frame(), Some(0x21000));
    assert_eq!(a.allocate_frame(), None);
}

#[test]
fn empty_map_has_no_frames() {
    let mut a = BootInfoFrameAllocator::init(Vec::new());
    assert_eq!(a.allocate_frame(), None);
}

#[test]
fn region_at_top_of_address_space() {
    let mut a = BootInfoFrameAllocator::init(vec![region(u64::MAX - 0x1fff, 0x1fff, true)]);
    assert_eq!(a.allocate_frame(), Some(u64::MAX - 0x1fff));
    assert_eq!(a.allocate_frame(), None);
}
