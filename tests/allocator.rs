use blog_os::allocator::LinkedListAllocator;

const HEAP_START: usize = 0x4444_4444_0000;
const HEAP_SIZE: usize = 100 * 1024;

fn overlaps(a: (usize, usize), b: (usize, usize)) -> bool {
    a.0 < b.0 + b.1 && b.0 < a.0 + a.1
}

#[test]
fn first_allocation_starts_at_heap_start() {
    let mut h = LinkedListAllocator::new(HEAP_START, HEAP_SIZE);
    assert_eq!(h.allocate(64, 8), Some(HEAP_START));
    assert_eq!(h.allocate(64, 8), Some(HEAP_START + 64));
}

#[test]
fn allocation_respects_alignment() {
    let mut h = LinkedListAllocator::new(0x1001, 0x1000);
    assert_eq!(h.allocate(16, 16), Some(0x1010));
    assert_eq!(h.allocate(8, 1), Some(0x1020));
}

#[test]
fn exhausted_heap_returns_none() {
    let mut h = LinkedListAllocator::new(HEAP_START, 256);
    assert_eq!(h.allocate(200, 8), Some(HEAP_START));
    assert_eq!(h.allocate(100, 8), None);
    assert_eq!(h.allocate(56, 8), Some(HEAP_START + 200));
    assert_eq!(h.allocate(1, 1), None);
}

#[test]
fn empty_heap_returns_none() {
    let mut h = LinkedListAllocator::new(HEAP_START, 0);
    assert_eq!(h.allocate(1, 1), None);
}

#[test]
fn small_remainder_is_not_kept() {
    let mut h = LinkedListAllocator::new(HEAP_START, 100);
    assert_eq!(h.allocate(90, 1), Some(HEAP_START));
    assert_eq!(h.allocate(1, 1), None);
}

#[test]
fn freed_block_is_reused_first_fit() {
    let mut h = LinkedListAllocator::new(HEAP_START, 128);
    let a = h.allocate(64, 8).unwrap();
    let b = h.allocate(64, 8).unwrap();
    assert_eq!(h.allocate(8, 8), None);
    h.deallocate(a, 64);
    assert_eq!(h.allocate(64, 8), Some(a));
    h.deallocate(b, 64);
    assert_eq!(h.allocate(32, 8), Some(b));
}

#[test]
fn realloc_same_size_is_writable_without_corruption() {
    let mut memory = vec![0u8; HEAP_SIZE];
    let mut h = LinkedListAllocator::new(HEAP_START, HEAP_SIZE);
    let a = h.allocate(100, 8).unwrap();
    let b = h.allocate(200, 8).unwrap();
    let c = h.allocate(100, 8).unwrap();
    for (p, n, v) in [(a, 100, 1u8), (b, 200, 2), (c, 100, 3)] {
        memory[p - HEAP_START..p - HEAP_START + n].fill(v);
    }
    h.deallocate(b, 200);
    let b2 = h.allocate(200, 8).unwrap();
    memory[b2 - HEAP_START..b2 - HEAP_START + 200].fill(9);
    assert!(memory[a - HEAP_START..a - HEAP_START + 100].iter().all(|x| *x == 1));
    assert!(memory[c - HEAP_START..c - HEAP_START + 100].iter().all(|x| *x == 3));
    assert!(!overlaps((b2, 200), (a, 100)) && !overlaps((b2, 200), (c, 100)));
}

#[test]
fn interleaved_live_blocks_never_overlap() {
    let mut h = LinkedListAllocator::new(HEAP_START, HEAP_SIZE);
    let mut live: Vec<(usize, usize)> = Vec::new();
    let mut seed: u64 = 12345;
    for _ in 0..2000 {
        seed = seed.wrapping_mul(6364136223846793005).wrapping_add(1442695040888963407);
        let r = (seed >> 33) as usize;
        if r % 3 != 0 || live.is_empty() {
            let size = 1 + r % 512;
            let align = 1usize << (r % 5);
            if let Some(p) = h.allocate(size, align) {
                assert_eq!(p % align, 0);
                assert!(p >= HEAP_START && p + size <= HEAP_START + HEAP_SIZE);
                assert!(live.iter().all(|b| !overlaps(*b, (p, size))));
                live.push((p, size));
            }
        } else {
            let (p, size) = live.swap_remove(r % live.len());
            h.deallocate(p, size);
        }
    }
}
