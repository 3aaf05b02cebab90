//! The kernel heap: a first-fit free list over one address range. The list
//! holds the free blocks; the blocks handed out are tracked in ghost state so
//! that the contracts can say that no two of them overlap.
use vstd::prelude::*;
use crate::memory::{BootInfoFrameAllocator, PAGE_SIZE, next_frame};
use crate::paging::{MapError, PageMapper, is_mapped, is_mapped_as};

verus! {

/// Smallest remainder worth keeping as a free-list node (an address and a size).
pub const MIN_BLOCK: usize = 16;

/// A block of heap addresses: `size` bytes from `addr`.
#[derive(Debug, Clone, Copy, PartialEq, Eq, Structural)]
pub struct Block {
    pub addr: usize,
    pub size: usize,
}

pub open spec fn block_end(b: Block) -> int {
    b.addr + b.size
}

pub open spec fn disjoint(a: Block, b: Block) -> bool {
    block_end(a) <= b.addr || block_end(b) <= a.addr
}

pub open spec fn within(b: Block, start: int, end: int) -> bool {
    &&& b.size > 0
    &&& start <= b.addr
    &&& block_end(b) <= end
}

/// The least multiple of `align` at or above `addr`.
pub open spec fn align_up(addr: int, align: int) -> int {
    if addr % align == 0 {
        addr
    } else {
        addr - addr % align + align
    }
}

/// A request of `size` bytes aligned to `align` can be carved out of `b`.
pub open spec fn fits(b: Block, size: int, align: int) -> bool {
    align_up(b.addr as int, align) + size <= block_end(b)
}

/// `k` is the first block of `free` that the request fits in.
pub open spec fn first_fit(free: Seq<Block>, size: int, align: int, k: int) -> bool {
    &&& 0 <= k < free.len()
    &&& fits(free[k], size, align)
    &&& forall|j: int| 0 <= j < k ==> !fits(#[trigger] free[j], size, align)
}

/// The free list after a request is served from block `k`: what is left
/// behind the handed-out block stays as a node if it is large enough, and is
/// given up otherwise; so is the padding in front of it.
pub open spec fn free_after_alloc(free: Seq<Block>, k: int, size: int, align: int) -> Seq<Block> {
    let b = free[k];
    let end = align_up(b.addr as int, align) + size;
    if block_end(b) - end >= MIN_BLOCK {
        free.update(k, Block { addr: end as usize, size: (block_end(b) - end) as usize })
    } else {
        free.remove(k)
    }
}

proof fn lemma_align_up(addr: int, align: int)
    requires
        0 <= addr,
        0 < align,
    ensures
        align_up(addr, align) % align == 0,
        addr <= align_up(addr, align) < addr + align,
{
    if addr % align != 0 {
        assert((addr - addr % align + align) % align == 0) by (nonlinear_arith)
            requires
                0 <= addr,
                0 < align,
        ;
    }
}

/// A first-fit heap allocator over the addresses `[heap_start, heap_end)`.
pub struct LinkedListAllocator {
    heap_start: usize,
    heap_end: usize,
    free: Vec<Block>,
    live: Ghost<Set<Block>>,
}

impl LinkedListAllocator {
    pub closed spec fn start(&self) -> int {
        self.heap_start as int
    }

    pub closed spec fn end(&self) -> int {
        self.heap_end as int
    }

    /// The free blocks, in list order.
    pub closed spec fn free_blocks(&self) -> Seq<Block> {
        self.free@
    }

    /// The blocks handed out and not yet given back.
    pub closed spec fn live(&self) -> Set<Block> {
        self.live@
    }

    /// Every block lies inside the heap; free blocks never overlap each
    /// other, nor a live block; and distinct live blocks never overlap.
    pub open spec fn wf(&self) -> bool {
        &&& self.start() <= self.end()
        &&& forall|i: int|
            0 <= i < self.free_blocks().len() ==> within(
                #[trigger] self.free_blocks()[i],
                self.start(),
                self.end(),
            )
        &&& forall|i: int, j: int|
            0 <= i < self.free_blocks().len() && 0 <= j < self.free_blocks().len() && i != j
                ==> disjoint(#[trigger] self.free_blocks()[i], #[trigger] self.free_blocks()[j])
        &&& forall|b: Block| #[trigger] self.live().contains(b) ==> within(b, self.start(), self.end())
        &&& forall|i: int, b: Block|
            0 <= i < self.free_blocks().len() && #[trigger] self.live().contains(b) ==> disjoint(
                #[trigger] self.free_blocks()[i],
                b,
            )
        &&& forall|a: Block, b: Block|
            #[trigger] self.live().contains(a) && #[trigger] self.live().contains(b) && a != b
                ==> disjoint(a, b)
    }

    /// An allocator whose free list is the whole range `heap_size` bytes from `heap_start`.
    pub fn new(heap_start: usize, heap_size: usize) -> (r: LinkedListAllocator)
        requires
            heap_start + heap_size <= usize::MAX,
        ensures
            r.wf(),
            r.start() == heap_start,
            r.end() == heap_start + heap_size,
            r.live() == Set::<Block>::empty(),
            heap_size > 0 ==> r.free_blocks() == seq![Block { addr: heap_start, size: heap_size }],
            heap_size == 0 ==> r.free_blocks() == Seq::<Block>::empty(),
    {
        let mut free: Vec<Block> = Vec::new();
        if heap_size > 0 {
            free.push(Block { addr: heap_start, size: heap_size });
        }
        LinkedListAllocator {
            heap_start,
            heap_end: heap_start + heap_size,
            free,
            live: Ghost(Set::empty()),
        }
    }

    /// Serves `size` bytes aligned to `align` from the first free block they
    /// fit in, or returns `None` when no free block fits them.
    pub fn allocate(&mut self, size: usize, align: usize) -> (r: Option<usize>)
        requires
            old(self).wf(),
            size > 0,
            align > 0,
        ensures
            final(self).wf(),
            final(self).start() == old(self).start(),
            final(self).end() == old(self).end(),
            r is None <==> forall|k: int|
                0 <= k < old(self).free_blocks().len() ==> !fits(
                    #[trigger] old(self).free_blocks()[k],
                    size as int,
                    align as int,
                ),
            r is None ==> final(self).free_blocks() == old(self).free_blocks() && final(self).live()
                == old(self).live(),
            r matches Some(p) ==> (exists|k: int|
                first_fit(old(self).free_blocks(), size as int, align as int, k)
                && p == align_up(old(self).free_blocks()[k].addr as int, align as int)
                && final(self).free_blocks() == free_after_alloc(old(self).free_blocks(), k, size as int, align as int)),
            r matches Some(p) ==> p % align == 0 && !old(self).live().contains(
                Block { addr: p, size },
            ) && final(self).live() == old(self).live().insert(Block { addr: p, size }),
            r matches Some(p) ==> within(Block { addr: p, size }, old(self).start(), old(self).end())
                && forall|b: Block| #[trigger] old(self).live().contains(b) ==> disjoint(Block { addr: p, size }, b),
    {
        let mut k: usize = 0;
        while k < self.free.len()
            invariant
                k <= self.free@.len(),
                *self == *old(self),
                old(self).wf(),
                size > 0,
                align > 0,
                forall|j: int| 0 <= j < k ==> !fits(#[trigger] self.free@[j], size as int, align as int),
            decreases self.free@.len() - k,
        {
            let b = self.free[k];
            let rem = b.addr % align;
            let pad = if rem == 0 {
                0
            } else {
                align - rem
            };
            proof {
                lemma_align_up(b.addr as int, align as int);
                assert(align_up(b.addr as int, align as int) == b.addr + pad);
            }
            proof {
                assert(within(self.free_blocks()[k as int], self.start(), self.end()));
            }
            if pad <= b.size && size <= b.size - pad {
                let p = b.addr + pad;
                let end = p + size;
                let leftover = b.size - pad - size;
                let nb = Block { addr: p, size };
                let ghost old_free = self.free_blocks();
                let ghost old_live = self.live();
                proof {
                    assert(within(b, self.start(), self.end()));
                    assert(!old_live.contains(nb)) by {
                        if old_live.contains(nb) {
                            assert(disjoint(old_free[k as int], nb));
                        }
                    }
                }
                if leftover >= MIN_BLOCK {
                    self.free.set(k, Block { addr: end, size: leftover });
                } else {
                    self.free.remove(k);
                }
                self.live = Ghost(old_live.insert(nb));
                proof {
                    assert(self.free@ == free_after_alloc(old_free, k as int, size as int, align as int));
                    assert forall|i: int| 0 <= i < self.free@.len() implies within(
                        #[trigger] self.free@[i],
                        self.start(),
                        self.end(),
                    ) by {
                        if leftover < MIN_BLOCK && i >= k {
                            assert(self.free@[i] == old_free[i + 1]);
                        }
                    }
                    assert forall|i: int, j: int|
                        0 <= i < self.free@.len() && 0 <= j < self.free@.len() && i != j
                            implies disjoint(#[trigger] self.free@[i], #[trigger] self.free@[j]) by {
                        if leftover < MIN_BLOCK {
                            let oi = if i < k { i } else { i + 1 };
                            let oj = if j < k { j } else { j + 1 };
                            assert(self.free@[i] == old_free[oi]);
                            assert(self.free@[j] == old_free[oj]);
                        } else {
                            if i != k && j != k {
                                assert(disjoint(old_free[i], old_free[j]));
                            } else if i == k {
                                assert(disjoint(old_free[k as int], old_free[j]));
                            } else {
                                assert(disjoint(old_free[i], old_free[k as int]));
                            }
                        }
                    }
                    assert forall|i: int, c: Block|
                        0 <= i < self.free@.len() && #[trigger] self.live@.contains(c) implies disjoint(
                        #[trigger] self.free@[i],
                        c,
                    ) by {
                        let oi = if leftover < MIN_BLOCK && i >= k { i + 1 } else { i };
                        if c == nb {
                            if oi != k {
                                assert(disjoint(old_free[oi], old_free[k as int]));
                            }
                        } else {
                            assert(old_live.contains(c));
                            assert(disjoint(old_free[oi], c));
                            assert(disjoint(old_free[k as int], c));
                        }
                    }
                    assert forall|a: Block, c: Block|
                        #[trigger] self.live@.contains(a) && #[trigger] self.live@.contains(c) && a != c
                            implies disjoint(a, c) by {
                        if a == nb {
                            assert(old_live.contains(c));
                            assert(disjoint(old_free[k as int], c));
                        } else if c == nb {
                            assert(old_live.contains(a));
                            assert(disjoint(old_free[k as int], a));
                        } else {
                            assert(old_live.contains(a) && old_live.contains(c));
                        }
                    }
                    assert(first_fit(old_free, size as int, align as int, k as int));
                    assert forall|c: Block| #[trigger] old_live.contains(c) implies disjoint(nb, c) by {
                        assert(disjoint(old_free[k as int], c));
                    }
                }
                return Some(p);
            }
            k = k + 1;
        }
        None
    }

    /// Gives back a block handed out earlier, with the size it was asked for.
    /// The block goes to the end of the free list as it is: neighbours are not merged.
    pub fn deallocate(&mut self, ptr: usize, size: usize)
        requires
            old(self).wf(),
            old(self).live().contains(Block { addr: ptr, size }),
        ensures
            final(self).wf(),
            final(self).start() == old(self).start(),
            final(self).end() == old(self).end(),
            final(self).free_blocks() == old(self).free_blocks().push(Block { addr: ptr, size }),
            final(self).live() == old(self).live().remove(Block { addr: ptr, size }),
    {
        let b = Block { addr: ptr, size };
        let ghost old_free = self.free_blocks();
        let ghost old_live = self.live();
        self.free.push(b);
        self.live = Ghost(old_live.remove(b));
        proof {
            assert forall|i: int, j: int|
                0 <= i < self.free@.len() && 0 <= j < self.free@.len() && i != j implies disjoint(
                #[trigger] self.free@[i],
                #[trigger] self.free@[j],
            ) by {
                if i == old_free.len() {
                    assert(disjoint(old_free[j], b));
                } else if j == old_free.len() {
                    assert(disjoint(old_free[i], b));
                } else {
                    assert(self.free@[i] == old_free[i] && self.free@[j] == old_free[j]);
                }
            }
            assert forall|i: int, c: Block|
                0 <= i < self.free@.len() && #[trigger] self.live@.contains(c) implies disjoint(
                #[trigger] self.free@[i],
                c,
            ) by {
                assert(old_live.contains(c));
                if i == old_free.len() {
                    assert(disjoint(b, c));
                } else {
                    assert(self.free@[i] == old_free[i]);
                }
            }
            assert forall|i: int| 0 <= i < self.free@.len() implies within(
                #[trigger] self.free@[i],
                self.start(),
                self.end(),
            ) by {
                if i < old_free.len() {
                    assert(self.free@[i] == old_free[i]);
                }
            }
        }
    }
}

/// No two blocks that are handed out at the same time overlap, and every one
/// lies inside the heap: this holds in every reachable state, since `new`
/// establishes `wf` and `allocate` and `deallocate` keep it.
pub proof fn lemma_live_blocks_disjoint(h: LinkedListAllocator, a: Block, b: Block)
    requires
        h.wf(),
        h.live().contains(a),
        h.live().contains(b),
        a != b,
    ensures
        disjoint(a, b),
        within(a, h.start(), h.end()),
        within(b, h.start(), h.end()),
{
}

/// Once a block is given back, a request of the same size and alignment
/// fits in the free list again, so it is served.
pub proof fn lemma_realloc_after_free(h: LinkedListAllocator, b: Block, align: usize)
    requires
        h.wf(),
        h.live().contains(b),
        align > 0,
        b.addr % align == 0,
    ensures
        fits(h.free_blocks().push(b)[h.free_blocks().len() as int], b.size as int, align as int),
        exists|k: int|
            0 <= k < h.free_blocks().push(b).len() && fits(
                #[trigger] h.free_blocks().push(b)[k],
                b.size as int,
                align as int,
            ),
{
    let k = h.free_blocks().len() as int;
    assert(h.free_blocks().push(b)[k] == b);
}

/// Number of pages that cover `size` bytes.
pub open spec fn pages_for(size: int) -> int {
    if size % (PAGE_SIZE as int) == 0 {
        size / (PAGE_SIZE as int)
    } else {
        size / (PAGE_SIZE as int) + 1
    }
}

/// Maps every page of the heap range, writable, to a fresh frame and returns an
/// allocator over the range, or the first mapping error.
pub fn init_heap(
    mapper: &mut PageMapper,
    frames: &mut BootInfoFrameAllocator,
    heap_start: usize,
    heap_size: usize,
) -> (r: Result<LinkedListAllocator, MapError>)
    requires
        heap_start % 4096 == 0,
        heap_start + heap_size + PAGE_SIZE <= usize::MAX,
        old(mapper).wf(),
        old(mapper).frames_distinct(),
        old(mapper).frames_below(old(frames).floor()),
        old(frames).wf(),
    ensures
        final(mapper).wf(),
        final(mapper).frames_distinct(),
        final(mapper).frames_below(final(frames).floor()),
        final(frames).wf(),
        final(frames).regions() == old(frames).regions(),
        r matches Ok(h) ==> h.wf() && h.start() == heap_start && h.end() == heap_start + heap_size
            && h.live() == Set::<Block>::empty() && (heap_size > 0 ==> h.free_blocks() == seq![
            Block { addr: heap_start, size: heap_size }]) && forall|k: int|
            0 <= k < pages_for(heap_size as int) ==> is_mapped_as(
                final(mapper).mappings(),
                #[trigger] (heap_start + k * PAGE_SIZE) as u64,
                true,
            ),
        r == Err::<LinkedListAllocator, MapError>(MapError::PageAlreadyMapped) ==> exists|k: int|
            0 <= k < pages_for(heap_size as int) && is_mapped(
                old(mapper).mappings(),
                #[trigger] (heap_start + k * PAGE_SIZE) as u64,
            ),
        r == Err::<LinkedListAllocator, MapError>(MapError::FrameAllocationFailed) ==> next_frame(
            final(frames).regions(),
            final(frames).floor(),
        ) is None,
{
    let pages = if heap_size % 4096 == 0 {
        heap_size / 4096
    } else {
        heap_size / 4096 + 1
    };
    assert(pages * 4096 <= heap_size + 4096) by (nonlinear_arith)
        requires
            pages as int == pages_for(heap_size as int),
    ;
    match mapper.map_range(heap_start as u64, pages as u64, true, frames) {
        Ok(()) => Ok(LinkedListAllocator::new(heap_start, heap_size)),
        Err(e) => Err(e),
    }
}

} // verus!
