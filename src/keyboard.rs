//! The keyboard bridge: a bounded queue of raw scancodes filled from the
//! interrupt handler, and a decoder that turns scancode bytes into key events.
use vstd::prelude::*;

verus! {

/// Capacity of the queue the keyboard interrupt handler feeds.
pub const SCANCODE_QUEUE_CAPACITY: usize = 100;
/// Prefix byte of the extended scancodes.
pub const EXTENDED_PREFIX: u8 = 0xe0;
/// Make codes of the modifier keys.
pub const LEFT_SHIFT: u8 = 0x2a;
pub const RIGHT_SHIFT: u8 = 0x36;
pub const CONTROL: u8 = 0x1d;

/// A first-in first-out ring of scancode bytes with a fixed capacity. Its
/// storage is allocated once, when it is made; a byte pushed while the ring is
/// full is dropped.
pub struct ScancodeQueue {
    slots: Vec<u8>,
    head: usize,
    len: usize,
}

/// Position in a ring of `cap` slots of the element `i` places after `head`.
pub open spec fn ring_index(head: int, i: int, cap: int) -> int {
    if head + i < cap {
        head + i
    } else {
        head + i - cap
    }
}

/// The queue after `b` is offered to it: appended if there is room, dropped if not.
pub open spec fn queue_push(q: Seq<u8>, capacity: nat, b: u8) -> Seq<u8> {
    if q.len() < capacity {
        q.push(b)
    } else {
        q
    }
}

/// The queue after every byte of `bs` is offered to it in order.
pub open spec fn queue_push_all(q: Seq<u8>, capacity: nat, bs: Seq<u8>) -> Seq<u8>
    decreases bs.len(),
{
    if bs.len() == 0 {
        q
    } else {
        queue_push(queue_push_all(q, capacity, bs.drop_last()), capacity, bs.last())
    }
}

pub open spec fn min_nat(a: nat, b: nat) -> nat {
    if a <= b {
        a
    } else {
        b
    }
}

/// Offering a run of bytes to a queue keeps the first bytes that fit, in their
/// order, behind the bytes already queued, and drops exactly the rest.
pub proof fn lemma_push_all_keeps_prefix(q: Seq<u8>, capacity: nat, bs: Seq<u8>)
    requires
        q.len() <= capacity,
    ensures
        queue_push_all(q, capacity, bs) == q + bs.take(
            min_nat((capacity - q.len()) as nat, bs.len()) as int,
        ),
    decreases bs.len(),
{
    if bs.len() > 0 {
        let prev = bs.drop_last();
        lemma_push_all_keeps_prefix(q, capacity, prev);
        let k = min_nat((capacity - q.len()) as nat, prev.len());
        let k2 = min_nat((capacity - q.len()) as nat, bs.len());
        if k < prev.len() {
            assert(k2 == k);
            assert(bs.take(k2 as int) =~= prev.take(k as int));
        } else {
            if k2 == bs.len() {
                assert(bs.take(k2 as int) =~= prev.take(k as int).push(bs.last()));
                assert(q + bs.take(k2 as int) =~= (q + prev.take(k as int)).push(bs.last()));
            } else {
                assert(bs.take(k2 as int) =~= prev.take(k as int));
            }
        }
    }
}

/// Offering more bytes than an empty queue of `capacity` slots holds keeps
/// exactly the first `capacity` of them, in arrival order; the newest ones,
/// `bs.len() - capacity` of them, are dropped.
pub proof fn lemma_overflow_keeps_oldest(capacity: nat, bs: Seq<u8>)
    requires
        bs.len() > capacity,
    ensures
        queue_push_all(Seq::empty(), capacity, bs) == bs.take(capacity as int),
        bs.len() - min_nat(capacity, bs.len()) == bs.len() - capacity,
{
    lemma_push_all_keeps_prefix(Seq::empty(), capacity, bs);
    assert(Seq::<u8>::empty() + bs.take(capacity as int) =~= bs.take(capacity as int));
}

impl ScancodeQueue {
    /// The queued bytes, oldest first.
    pub closed spec fn contents(&self) -> Seq<u8> {
        Seq::new(
            self.len as nat,
            |i: int| self.slots@[ring_index(self.head as int, i, self.slots@.len() as int)],
        )
    }

    pub closed spec fn spec_capacity(&self) -> nat {
        self.slots@.len()
    }

    pub closed spec fn wf(&self) -> bool {
        &&& self.len <= self.slots@.len()
        &&& (self.slots@.len() == 0 ==> self.head == 0)
        &&& (self.slots@.len() > 0 ==> self.head < self.slots@.len())
    }

    /// An empty ring of `capacity` slots.
    pub fn new(capacity: usize) -> (r: ScancodeQueue)
        ensures
            r.wf(),
            r.contents() == Seq::<u8>::empty(),
            r.spec_capacity() == capacity,
    {
        let mut slots: Vec<u8> = Vec::with_capacity(capacity);
        let mut i: usize = 0;
        while i < capacity
            invariant
                i <= capacity,
                slots@.len() == i,
            decreases capacity - i,
        {
            slots.push(0);
            i = i + 1;
        }
        let r = ScancodeQueue { slots, head: 0, len: 0 };
        assert(r.contents() =~= Seq::<u8>::empty());
        r
    }

    pub fn capacity(&self) -> (r: usize)
        ensures
            r == self.spec_capacity(),
    {
        self.slots.len()
    }

    pub fn len(&self) -> (r: usize)
        ensures
            r == self.contents().len(),
    {
        self.len
    }

    /// Appends `b` if there is room and says whether it did; a byte that finds
    /// the queue full is dropped.
    pub fn push(&mut self, b: u8) -> (r: bool)
        requires
            old(self).wf(),
        ensures
            final(self).wf(),
            final(self).spec_capacity() == old(self).spec_capacity(),
            r == (old(self).contents().len() < old(self).spec_capacity()),
            final(self).contents() == queue_push(
                old(self).contents(),
                old(self).spec_capacity(),
                b,
            ),
    {
        let cap = self.slots.len();
        if self.len < cap {
            let room = cap - self.head;
            let idx = if self.len < room {
                self.head + self.len
            } else {
                self.len - room
            };
            self.slots.set(idx, b);
            self.len = self.len + 1;
            assert(self.contents() =~= old(self).contents().push(b));
            true
        } else {
            false
        }
    }

    /// Offers every byte of `bs` in order and returns how many were dropped.
    pub fn push_all(&mut self, bs: &[u8]) -> (dropped: usize)
        requires
            old(self).wf(),
        ensures
            final(self).wf(),
            final(self).spec_capacity() == old(self).spec_capacity(),
            final(self).contents() == queue_push_all(
                old(self).contents(),
                old(self).spec_capacity(),
                bs@,
            ),
            final(self).contents() == old(self).contents() + bs@.take(
                min_nat(
                    (old(self).spec_capacity() - old(self).contents().len()) as nat,
                    bs@.len(),
                ) as int,
            ),
            dropped == bs@.len() - min_nat(
                (old(self).spec_capacity() - old(self).contents().len()) as nat,
                bs@.len(),
            ),
    {
        let mut dropped: usize = 0;
        let mut i: usize = 0;
        while i < bs.len()
            invariant
                i <= bs@.len(),
                dropped <= i,
                self.wf(),
                self.spec_capacity() == old(self).spec_capacity(),
                self.contents() == queue_push_all(
                    old(self).contents(),
                    old(self).spec_capacity(),
                    bs@.take(i as int),
                ),
                self.contents().len() == old(self).contents().len() + (i - dropped),
                dropped == i - min_nat(
                    (old(self).spec_capacity() - old(self).contents().len()) as nat,
                    i as nat,
                ),
            decreases bs@.len() - i,
        {
            let kept = self.push(bs[i]);
            if !kept {
                dropped = dropped + 1;
            }
            assert(bs@.take(i + 1).drop_last() =~= bs@.take(i as int));
            i = i + 1;
        }
        assert(bs@.take(i as int) =~= bs@);
        proof {
            lemma_push_all_keeps_prefix(old(self).contents(), old(self).spec_capacity(), bs@);
        }
        dropped
    }

    /// Removes and returns the oldest byte, if any.
    pub fn pop(&mut self) -> (r: Option<u8>)
        requires
            old(self).wf(),
        ensures
            final(self).wf(),
            final(self).spec_capacity() == old(self).spec_capacity(),
            old(self).contents().len() == 0 ==> r is None && final(self).contents()
                == old(self).contents(),
            old(self).contents().len() > 0 ==> r == Some(old(self).contents()[0])
                && final(self).contents() == old(self).contents().drop_first(),
    {
        if self.len == 0 {
            None
        } else {
            let b = self.slots[self.head];
            let cap = self.slots.len();
            self.head = if self.head == cap - 1 {
                0
            } else {
                self.head + 1
            };
            self.len = self.len - 1;
            assert(self.contents() =~= old(self).contents().drop_first());
            Some(b)
        }
    }
}

/// A key going down or coming up, with the modifiers held at that moment.
#[derive(Debug, Clone, Copy, PartialEq, Eq, Structural)]
pub struct KeyEvent {
    /// The make code of the key (the scancode without its release bit).
    pub code: u8,
    /// The key's scancode came after the extended prefix.
    pub extended: bool,
    pub pressed: bool,
    pub shift: bool,
    pub ctrl: bool,
}

/// State kept between scancode bytes: a pending extended prefix and the
/// modifier keys held down.
#[derive(Debug, Clone, Copy, PartialEq, Eq, Structural)]
pub struct ScancodeDecoder {
    pub extended: bool,
    pub left_shift: bool,
    pub right_shift: bool,
    pub ctrl: bool,
}

/// What one scancode byte does to the decoder state, and the event it yields.
pub open spec fn decode_step(d: ScancodeDecoder, byte: u8) -> (ScancodeDecoder, Option<KeyEvent>) {
    if byte == EXTENDED_PREFIX {
        (ScancodeDecoder { extended: true, ..d }, None)
    } else {
        let code = (byte % 128) as u8;
        let pressed = byte < 128;
        let d2 = ScancodeDecoder {
            extended: false,
            left_shift: if code == LEFT_SHIFT && !d.extended {
                pressed
            } else {
                d.left_shift
            },
            right_shift: if code == RIGHT_SHIFT && !d.extended {
                pressed
            } else {
                d.right_shift
            },
            ctrl: if code == CONTROL {
                pressed
            } else {
                d.ctrl
            },
        };
        (
            d2,
            Some(
                KeyEvent {
                    code,
                    extended: d.extended,
                    pressed,
                    shift: d2.left_shift || d2.right_shift,
                    ctrl: d2.ctrl,
                },
            ),
        )
    }
}

impl ScancodeDecoder {
    pub fn new() -> (r: ScancodeDecoder)
        ensures
            r == (ScancodeDecoder {
                extended: false,
                left_shift: false,
                right_shift: false,
                ctrl: false,
            }),
    {
        ScancodeDecoder { extended: false, left_shift: false, right_shift: false, ctrl: false }
    }

    /// Feeds one scancode byte; yields the key event it completes, if any.
    pub fn add_byte(&mut self, byte: u8) -> (r: Option<KeyEvent>)
        ensures
            (*final(self), r) == decode_step(*old(self), byte),
    {
        if byte == EXTENDED_PREFIX {
            self.extended = true;
            return None;
        }
        let code = byte % 128;
        let pressed = byte < 128;
        let was_extended = self.extended;
        self.extended = false;
        if code == LEFT_SHIFT && !was_extended {
            self.left_shift = pressed;
        }
        if code == RIGHT_SHIFT && !was_extended {
            self.right_shift = pressed;
        }
        if code == CONTROL {
            self.ctrl = pressed;
        }
        Some(
            KeyEvent {
                code,
                extended: was_extended,
                pressed,
                shift: self.left_shift || self.right_shift,
                ctrl: self.ctrl,
            },
        )
    }

    /// Takes the oldest byte of `queue` through the decoder. `None` when the
    /// queue is empty; `Some(None)` when the byte only updated the decoder.
    pub fn next_event(&mut self, queue: &mut ScancodeQueue) -> (r: Option<Option<KeyEvent>>)
        requires
            old(queue).wf(),
        ensures
            final(queue).wf(),
            final(queue).spec_capacity() == old(queue).spec_capacity(),
            old(queue).contents().len() == 0 ==> r is None && final(queue).contents()
                == old(queue).contents() && *final(self) == *old(self),
            old(queue).contents().len() > 0 ==> final(queue).contents() == old(
                queue,
            ).contents().drop_first() && (*final(self), r->0) == decode_step(
                *old(self),
                old(queue).contents()[0],
            ) && r is Some,
    {
        match queue.pop() {
            Some(b) => Some(self.add_byte(b)),
            None => None,
        }
    }
}

} // verus!
