//! Physical frame allocation from the firmware memory map.
use vstd::prelude::*;

verus! {

/// Size and alignment of a physical frame and of a virtual page.
pub const PAGE_SIZE: u64 = 4096;

/// One entry of the memory map handed over at boot.
#[derive(Debug, Clone, Copy, PartialEq, Eq, Structural)]
pub struct MemoryRegion {
    pub base: u64,
    pub length: u64,
    pub usable: bool,
}

/// The region's end address fits in the address space.
pub open spec fn region_ok(r: MemoryRegion) -> bool {
    r.base + r.length <= u64::MAX
}

pub open spec fn regions_ok(regions: Seq<MemoryRegion>) -> bool {
    forall|i: int| 0 <= i < regions.len() ==> region_ok(#[trigger] regions[i])
}

/// `f` is the start of a whole aligned frame inside the usable region `r`.
pub open spec fn frame_in_region(r: MemoryRegion, f: int) -> bool {
    &&& r.usable
    &&& f % (PAGE_SIZE as int) == 0
    &&& r.base <= f
    &&& f + PAGE_SIZE <= r.base + r.length
}

/// `f` is a frame of some usable region of the map.
pub open spec fn is_usable_frame(regions: Seq<MemoryRegion>, f: int) -> bool {
    exists|i: int| 0 <= i < regions.len() && frame_in_region(#[trigger] regions[i], f)
}

/// `f` is the lowest usable frame at or above `floor`.
pub open spec fn is_next_frame(regions: Seq<MemoryRegion>, floor: int, f: int) -> bool {
    &&& is_usable_frame(regions, f)
    &&& f >= floor
    &&& forall|g: int| #[trigger] is_usable_frame(regions, g) && g >= floor ==> f <= g
}

/// The lowest usable frame at or above `floor`, if there is one.
pub open spec fn next_frame(regions: Seq<MemoryRegion>, floor: int) -> Option<u64> {
    if exists|f: u64| is_next_frame(regions, floor, f as int) {
        Some(choose|f: u64| is_next_frame(regions, floor, f as int))
    } else {
        None
    }
}

/// The frames handed out by `n` successive allocations that start at `floor`.
pub open spec fn frames_issued(regions: Seq<MemoryRegion>, floor: int, n: nat) -> Seq<u64>
    decreases n,
{
    if n == 0 {
        Seq::empty()
    } else {
        match next_frame(regions, floor) {
            Some(f) => seq![f] + frames_issued(regions, f + PAGE_SIZE, (n - 1) as nat),
            None => Seq::empty(),
        }
    }
}

/// The allocator's cursor after `n` successive allocations that start at `floor`.
pub open spec fn floor_after(regions: Seq<MemoryRegion>, floor: int, n: nat) -> int
    decreases n,
{
    if n == 0 {
        floor
    } else {
        match next_frame(regions, floor) {
            Some(f) => floor_after(regions, f + PAGE_SIZE, (n - 1) as nat),
            None => floor,
        }
    }
}

/// One allocation more, after `n` that all succeeded, adds the frame that the
/// cursor then points at, if any.
pub proof fn lemma_issue_step(regions: Seq<MemoryRegion>, floor: int, n: nat)
    requires
        frames_issued(regions, floor, n).len() == n,
    ensures
        next_frame(regions, floor_after(regions, floor, n)) matches Some(g) ==> frames_issued(
            regions,
            floor,
            n + 1,
        ) == frames_issued(regions, floor, n).push(g) && floor_after(regions, floor, n + 1) == g
            + PAGE_SIZE,
        next_frame(regions, floor_after(regions, floor, n)) is None ==> frames_issued(
            regions,
            floor,
            n + 1,
        ) == frames_issued(regions, floor, n) && floor_after(regions, floor, n + 1)
            == floor_after(regions, floor, n),
    decreases n,
{
    if n == 0 {
        assert(frames_issued(regions, floor, 0) =~= Seq::<u64>::empty());
        assert(floor_after(regions, floor, 0) == floor);
        if let Some(f) = next_frame(regions, floor) {
            assert(floor_after(regions, floor, 1) == floor_after(regions, f + PAGE_SIZE, 0));
            assert(floor_after(regions, f + PAGE_SIZE, 0) == f + PAGE_SIZE);
            assert(frames_issued(regions, f + PAGE_SIZE, 0) =~= Seq::<u64>::empty());
            assert(frames_issued(regions, floor, 1) =~= seq![f]);
        }
    } else {
        assert(next_frame(regions, floor) is Some);
        let f = next_frame(regions, floor)->0;
        let rest = frames_issued(regions, f + PAGE_SIZE, (n - 1) as nat);
        assert(frames_issued(regions, floor, n) == seq![f] + rest);
        assert(rest.len() == n - 1);
        lemma_issue_step(regions, f + PAGE_SIZE, (n - 1) as nat);
        assert(floor_after(regions, floor, n) == floor_after(regions, f + PAGE_SIZE, (n - 1) as nat));
        assert(floor_after(regions, floor, n + 1) == floor_after(regions, f + PAGE_SIZE, n));
        assert(frames_issued(regions, floor, n + 1) == seq![f] + frames_issued(regions, f + PAGE_SIZE, n));
        assert((n - 1) as nat + 1 == n);
        if let Some(g) = next_frame(regions, floor_after(regions, floor, n)) {
            assert(frames_issued(regions, floor, n + 1) =~= (seq![f] + rest).push(g));
        } else {
            assert(frames_issued(regions, floor, n + 1) =~= seq![f] + rest);
        }
    }
}

proof fn lemma_next_frame_is(regions: Seq<MemoryRegion>, floor: int, f: u64)
    requires
        is_next_frame(regions, floor, f as int),
    ensures
        next_frame(regions, floor) == Some(f),
{
    let g = choose|g: u64| is_next_frame(regions, floor, g as int);
    assert(is_next_frame(regions, floor, g as int));
    assert(f <= g && g <= f);
}

proof fn lemma_no_next_frame(regions: Seq<MemoryRegion>, floor: int)
    requires
        forall|g: int| !(#[trigger] is_usable_frame(regions, g) && g >= floor),
    ensures
        next_frame(regions, floor) == None::<u64>,
{
}

/// What `next_frame` promises when it finds a frame.
pub proof fn lemma_next_frame_props(regions: Seq<MemoryRegion>, floor: int)
    ensures
        next_frame(regions, floor) matches Some(f) ==> is_next_frame(regions, floor, f as int),
{
}

/// Successive frame allocations hand out strictly ascending addresses, hence
/// never the same frame twice, and every one of them is a whole frame of a
/// usable region at or above the starting point.
pub proof fn lemma_frames_ascending(regions: Seq<MemoryRegion>, floor: int, n: nat)
    ensures
        forall|i: int, j: int|
            0 <= i < j < frames_issued(regions, floor, n).len() ==> frames_issued(
                regions,
                floor,
                n,
            )[i] < frames_issued(regions, floor, n)[j],
        forall|i: int|
            0 <= i < frames_issued(regions, floor, n).len() ==> is_usable_frame(
                regions,
                #[trigger] frames_issued(regions, floor, n)[i] as int,
            ) && frames_issued(regions, floor, n)[i] >= floor,
    decreases n,
{
    if n > 0 {
        lemma_next_frame_props(regions, floor);
        if let Some(f) = next_frame(regions, floor) {
            let rest = frames_issued(regions, f + PAGE_SIZE, (n - 1) as nat);
            lemma_frames_ascending(regions, f + PAGE_SIZE, (n - 1) as nat);
            let s = frames_issued(regions, floor, n);
            assert(s == seq![f] + rest);
            assert forall|i: int, j: int| 0 <= i < j < s.len() implies s[i] < s[j] by {
                if i > 0 {
                    assert(s[i] == rest[i - 1] && s[j] == rest[j - 1]);
                } else {
                    assert(s[j] == rest[j - 1]);
                    assert(rest[j - 1] >= f + PAGE_SIZE);
                }
            }
            assert forall|i: int| 0 <= i < s.len() implies is_usable_frame(
                regions,
                #[trigger] s[i] as int,
            ) && s[i] >= floor by {
                if i > 0 {
                    assert(s[i] == rest[i - 1]);
                    assert(is_usable_frame(regions, rest[i - 1] as int));
                }
            }
        }
    }
}

proof fn lemma_align_up(x: int, g: int)
    requires
        0 <= x <= g,
        g % 4096 == 0,
    ensures
        x % 4096 != 0 ==> g >= x - x % 4096 + 4096,
{
    assert(x % 4096 != 0 ==> g >= x - x % 4096 + 4096) by (nonlinear_arith)
        requires
            0 <= x <= g,
            g % 4096 == 0,
    ;
}

proof fn lemma_round_up_aligned(x: int)
    requires
        0 <= x,
    ensures
        (x - x % 4096 + 4096) % 4096 == 0,
{
    assert((x - x % 4096 + 4096) % 4096 == 0) by (nonlinear_arith)
        requires
            0 <= x,
    ;
}

/// The lowest frame of `r` at or above `floor`.
fn region_candidate(r: &MemoryRegion, floor: u64) -> (c: Option<u64>)
    requires
        region_ok(*r),
    ensures
        c matches Some(f) ==> frame_in_region(*r, f as int) && f >= floor && forall|g: int|
            frame_in_region(*r, g) && g >= floor ==> f <= g,
        c is None ==> forall|g: int| !(frame_in_region(*r, g) && g >= floor),
{
    if !r.usable {
        return None;
    }
    let x = if r.base > floor {
        r.base
    } else {
        floor
    };
    let rem = x % PAGE_SIZE;
    let end = r.base + r.length;
    proof {
        assert forall|g: int| frame_in_region(*r, g) && g >= floor implies g >= x && (rem != 0
            ==> g >= x - rem + 4096) by {
            lemma_align_up(x as int, g);
        }
    }
    let c = if rem == 0 {
        x
    } else {
        if x - rem > u64::MAX - PAGE_SIZE {
            return None;
        }
        proof {
            lemma_round_up_aligned(x as int);
        }
        x - rem + PAGE_SIZE
    };
    if end >= PAGE_SIZE && c <= end - PAGE_SIZE {
        Some(c)
    } else {
        None
    }
}

/// Hands out the usable frames of a memory map one by one, in ascending order.
/// Frames are never taken back.
pub struct BootInfoFrameAllocator {
    regions: Vec<MemoryRegion>,
    next: u64,
}

impl BootInfoFrameAllocator {
    /// The memory map the allocator was built from.
    pub closed spec fn regions(&self) -> Seq<MemoryRegion> {
        self.regions@
    }

    /// No frame below this address is handed out any more.
    pub closed spec fn floor(&self) -> int {
        self.next as int
    }

    pub open spec fn wf(&self) -> bool {
        regions_ok(self.regions())
    }

    /// An allocator over `regions`, with no frame handed out yet.
    pub fn init(regions: Vec<MemoryRegion>) -> (r: BootInfoFrameAllocator)
        requires
            regions_ok(regions@),
        ensures
            r.wf(),
            r.regions() == regions@,
            r.floor() == 0,
    {
        BootInfoFrameAllocator { regions, next: 0 }
    }

    /// Hands out the lowest usable frame that has not been handed out yet, or
    /// `None` once the map is exhausted.
    pub fn allocate_frame(&mut self) -> (r: Option<u64>)
        requires
            old(self).wf(),
        ensures
            final(self).wf(),
            final(self).regions() == old(self).regions(),
            r == next_frame(old(self).regions(), old(self).floor()),
            final(self).floor() == match r {
                Some(f) => f + PAGE_SIZE,
                None => old(self).floor(),
            },
    {
        let floor = self.next;
        let mut best: Option<u64> = None;
        let ghost mut best_region: int = 0;
        let mut i: usize = 0;
        while i < self.regions.len()
            invariant
                i <= self.regions@.len(),
                self.wf(),
                self.next == floor,
                best matches Some(f) ==> 0 <= best_region < i && frame_in_region(
                    self.regions@[best_region],
                    f as int,
                ) && f >= floor,
                forall|j: int, g: int|
                    0 <= j < i && #[trigger] frame_in_region(self.regions@[j], g) && g >= floor
                        ==> (best matches Some(f) && f <= g),
            decreases self.regions@.len() - i,
        {
            let c = region_candidate(&self.regions[i], floor);
            proof {
                assert(region_ok(self.regions@[i as int]));
            }
            match c {
                Some(f) => {
                    let better = match best {
                        Some(b) => f < b,
                        None => true,
                    };
                    if better {
                        best = Some(f);
                        proof {
                            best_region = i as int;
                        }
                    }
                },
                None => {},
            }
            i = i + 1;
        }
        match best {
            Some(f) => {
                proof {
                    assert(is_usable_frame(self.regions@, f as int));
                    lemma_next_frame_is(self.regions@, floor as int, f);
                }
                self.next = f + PAGE_SIZE;
            },
            None => {
                proof {
                    lemma_no_next_frame(self.regions@, floor as int);
                }
            },
        }
        best
    }
}

} // verus!
