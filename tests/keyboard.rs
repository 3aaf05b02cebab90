use blog_os::keyboard::{KeyEvent, ScancodeDecoder, ScancodeQueue, SCANCODE_QUEUE_CAPACITY};

#[test]
fn queue_is_first_in_first_out() {
    let mut q = ScancodeQueue::new(SCANCODE_QUEUE_CAPACITY);
    assert!(q.push(1));
    assert!(q.push(2));
    assert_eq!(q.pop(), Some(1));
    assert_eq!(q.pop(), Some(2));
    assert_eq!(q.pop(), None);
}

#[test]
fn overflow_drops_newest_bytes() {
    let mut q = ScancodeQueue::new(4);
    assert_eq!(q.push_all(&[10, 11, 12, 13, 14, 15]), 2);
    assert_eq!(q.len(), 4);
    assert!(!q.push(16));
    let out: Vec<u8> = std::iter::from_fn(|| q.pop()).collect();
    assert_eq!(out, vec![10, 11, 12, 13]);
}

#[test]
fn overflow_after_partial_fill() {
    let mut q = ScancodeQueue::new(3);
    assert!(q.push(1));
    assert_eq!(q.push_all(&[2, 3, 4, 5]), 2);
    assert_eq!(q.pop(), Some(1));
    assert_eq!(q.push_all(&[]), 0);
    assert_eq!(q.push_all(&[6]), 0);
    let out: Vec<u8> = std::iter::from_fn(|| q.pop()).collect();
    assert_eq!(out, vec![2, 3, 6]);
}

#[test]
fn zero_capacity_queue_drops_everything() {
    let mut q = ScancodeQueue::new(0);
    assert_eq!(q.push_all(&[1, 2, 3]), 3);
    assert_eq!(q.pop(), None);
}

#[test]
fn decoder_tracks_shift() {
    let mut d = ScancodeDecoder::new();
    let press_shift = d.add_byte(0x2a).unwrap();
    assert!(press_shift.pressed && press_shift.shift);
    assert_eq!(
        d.add_byte(0x1e),
        Some(KeyEvent { code: 0x1e, extended: false, pressed: true, shift: true, ctrl: false })
    );
    d.add_byte(0xaa);
    assert_eq!(
        d.add_byte(0x9e),
        Some(KeyEvent { code: 0x1e, extended: false, pressed: false, shift: false, ctrl: false })
    );
}

#[test]
fn decoder_handles_extended_prefix_and_ctrl() {
    let mut d = ScancodeDecoder::new();
    assert_eq!(d.add_byte(0xe0), None);
    assert_eq!(
        d.add_byte(0x1d),
        Some(KeyEvent { code: 0x1d, extended: true, pressed: true, shift: false, ctrl: true })
    );
    assert_eq!(d.add_byte(0xe0), None);
    assert_eq!(
        d.add_byte(0x48),
        Some(KeyEvent { code: 0x48, extended: true, pressed: true, shift: false, ctrl: true })
    );
    assert_eq!(
        d.add_byte(0x48),
        Some(KeyEvent { code: 0x48, extended: false, pressed: true, shift: false, ctrl: true })
    );
}

#[test]
fn next_event_consumes_queue() {
    let mut q = ScancodeQueue::new(8);
    let mut d = ScancodeDecoder::new();
    assert_eq!(d.next_event(&mut q), None);
    q.push_all(&[0xe0, 0x4b]);
    assert_eq!(d.next_event(&mut q), Some(None));
    assert_eq!(
        d.next_event(&mut q),
        Some(Some(KeyEvent { code: 0x4b, extended: true, pressed: true, shift: false, ctrl: false }))
    );
    assert_eq!(d.next_event(&mut q), None);
}

#[test]
fn ring_wraps_around_its_storage() {
    let mut q = ScancodeQueue::new(3);
    assert_eq!(q.capacity(), 3);
    assert_eq!(q.push_all(&[1, 2, 3]), 0);
    assert_eq!(q.pop(), Some(1));
    assert_eq!(q.pop(), Some(2));
    assert!(q.push(4));
    assert!(q.push(5));
    assert!(!q.push(6));
    let out: Vec<u8> = std::iter::from_fn(|| q.pop()).collect();
    assert_eq!(out, vec![3, 4, 5]);
    assert_eq!(q.len(), 0);
}
