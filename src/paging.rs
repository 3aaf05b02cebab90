//! Page mapping: a four-level page table, modelled by the intermediate tables
//! it holds and the leaf mappings it installs. Every frame it uses comes from
//! the frame allocator.
use vstd::prelude::*;
use crate::memory::{
    BootInfoFrameAllocator, MemoryRegion, floor_after, frames_issued, is_usable_frame, lemma_issue_step,
    next_frame, PAGE_SIZE,
};

verus! {

/// Bytes of address space covered by one table of level 1, 2 and 3.
pub const LEVEL1_SPAN: u64 = 0x20_0000;
pub const LEVEL2_SPAN: u64 = 0x4000_0000;
pub const LEVEL3_SPAN: u64 = 0x80_0000_0000;

#[derive(Debug, Clone, Copy, PartialEq, Eq, Structural)]
pub enum MapError {
    /// A frame for an intermediate table or for the page itself could not be had.
    FrameAllocationFailed,
    /// The page has a mapping already.
    PageAlreadyMapped,
}

/// An intermediate table of `level` (1 to 3) that serves the addresses whose
/// quotient by the level's span is `key`, stored in `frame`.
#[derive(Debug, Clone, Copy, PartialEq, Eq, Structural)]
pub struct TableEntry {
    pub level: u8,
    pub key: u64,
    pub frame: u64,
}

/// A leaf entry: `page` maps to `frame`, present, and writable if asked.
#[derive(Debug, Clone, Copy, PartialEq, Eq, Structural)]
pub struct Mapping {
    pub page: u64,
    pub frame: u64,
    pub writable: bool,
}

pub open spec fn level_span(level: u8) -> u64 {
    if level == 3 {
        LEVEL3_SPAN
    } else if level == 2 {
        LEVEL2_SPAN
    } else {
        LEVEL1_SPAN
    }
}

/// Key of the table of `level` on the walk to `page`.
pub open spec fn table_key(page: u64, level: u8) -> u64 {
    (page / level_span(level)) as u64
}

pub open spec fn has_table(tables: Seq<TableEntry>, level: u8, key: u64) -> bool {
    exists|i: int| 0 <= i < tables.len() && #[trigger] tables[i].level == level && tables[i].key == key
}

/// All three intermediate tables on the walk to `page` are present.
pub open spec fn walk_present(tables: Seq<TableEntry>, page: u64) -> bool {
    &&& has_table(tables, 3, table_key(page, 3))
    &&& has_table(tables, 2, table_key(page, 2))
    &&& has_table(tables, 1, table_key(page, 1))
}

/// `page` has a mapping, writable or not as `writable` says.
pub open spec fn is_mapped_as(mappings: Seq<Mapping>, page: u64, writable: bool) -> bool {
    exists|i: int|
        0 <= i < mappings.len() && #[trigger] mappings[i].page == page && mappings[i].writable == writable
}

pub open spec fn is_mapped(mappings: Seq<Mapping>, page: u64) -> bool {
    exists|i: int| 0 <= i < mappings.len() && #[trigger] mappings[i].page == page
}

/// The walk entries of `page` that `tables` lacks, from level 3 down.
pub open spec fn missing_walk(tables: Seq<TableEntry>, page: u64) -> Seq<(u8, u64)> {
    let k3 = table_key(page, 3);
    let k2 = table_key(page, 2);
    let k1 = table_key(page, 1);
    (if has_table(tables, 3, k3) {
        Seq::empty()
    } else {
        seq![(3u8, k3)]
    }) + (if has_table(tables, 2, k2) {
        Seq::empty()
    } else {
        seq![(2u8, k2)]
    }) + (if has_table(tables, 1, k1) {
        Seq::empty()
    } else {
        seq![(1u8, k1)]
    })
}

pub open spec fn table_keys(tables: Seq<TableEntry>) -> Seq<(u8, u64)> {
    tables.map_values(|e: TableEntry| (e.level, e.key))
}

pub open spec fn table_frames(tables: Seq<TableEntry>) -> Seq<u64> {
    tables.map_values(|e: TableEntry| e.frame)
}

/// What making sure of one table does: nothing when it is present; else it
/// takes the allocator's next frame for it, or fails when there is none.
pub open spec fn table_step(
    regions: Seq<MemoryRegion>,
    tables: Seq<TableEntry>,
    floor: int,
    level: u8,
    key: u64,
    r: bool,
    tables2: Seq<TableEntry>,
    floor2: int,
) -> bool {
    if has_table(tables, level, key) {
        r && tables2 == tables && floor2 == floor
    } else {
        match next_frame(regions, floor) {
            Some(f) => r && tables2 == tables.push(TableEntry { level, key, frame: f }) && floor2
                == f + PAGE_SIZE,
            None => !r && tables2 == tables && floor2 == floor,
        }
    }
}

/// The tables past the first `t0.len()` were added, in order, with the frames
/// that successive allocations from `floor0` gave, and `floor` is where the
/// allocator then stands.
pub open spec fn walk_progress(
    regions: Seq<MemoryRegion>,
    floor0: int,
    t0: Seq<TableEntry>,
    tables: Seq<TableEntry>,
    floor: int,
) -> bool {
    &&& tables.len() >= t0.len()
    &&& tables.take(t0.len() as int) == t0
    &&& frames_issued(regions, floor0, (tables.len() - t0.len()) as nat) == table_frames(
        tables.skip(t0.len() as int),
    )
    &&& floor == floor_after(regions, floor0, (tables.len() - t0.len()) as nat)
}

proof fn lemma_walk_step(
    regions: Seq<MemoryRegion>,
    floor0: int,
    t0: Seq<TableEntry>,
    tables: Seq<TableEntry>,
    floor: int,
    level: u8,
    key: u64,
    r: bool,
    tables2: Seq<TableEntry>,
    floor2: int,
)
    requires
        walk_progress(regions, floor0, t0, tables, floor),
        table_step(regions, tables, floor, level, key, r, tables2, floor2),
    ensures
        walk_progress(regions, floor0, t0, tables2, floor2),
        table_keys(tables2.skip(t0.len() as int)) == table_keys(tables.skip(t0.len() as int)) + (
        if r && !has_table(tables, level, key) {
            seq![(level, key)]
        } else {
            Seq::empty()
        }),
        forall|l: u8, k: u64|
            has_table(tables2, l, k) <==> has_table(tables, l, k) || (r && l == level && k == key),
        !r ==> next_frame(regions, floor2) is None,
{
    let n = (tables.len() - t0.len()) as nat;
    lemma_issue_step(regions, floor0, n);
    if !has_table(tables, level, key) && r {
        let e = tables2[tables.len() as int];
        assert(tables2.take(t0.len() as int) =~= t0);
        assert(tables2.skip(t0.len() as int) =~= tables.skip(t0.len() as int).push(e));
        assert(table_frames(tables2.skip(t0.len() as int)) =~= table_frames(
            tables.skip(t0.len() as int),
        ).push(e.frame));
        assert(table_keys(tables2.skip(t0.len() as int)) =~= table_keys(
            tables.skip(t0.len() as int),
        ) + seq![(level, key)]);
        assert forall|l: u8, k: u64|
            has_table(tables2, l, k) <==> has_table(tables, l, k) || (l == level && k == key) by {
            if has_table(tables, l, k) {
                let i = choose|i: int| 0 <= i < tables.len() && #[trigger] tables[i].level == l && tables[i].key == k;
                assert(tables2[i] == tables[i]);
            }
            if l == level && k == key {
                assert(tables2[tables.len() as int].level == l);
            }
            if has_table(tables2, l, k) {
                let i = choose|i: int| 0 <= i < tables2.len() && #[trigger] tables2[i].level == l && tables2[i].key == k;
                if i < tables.len() {
                    assert(tables[i] == tables2[i]);
                }
            }
        }
    } else {
        assert(table_keys(tables2.skip(t0.len() as int)) =~= table_keys(
            tables.skip(t0.len() as int),
        ) + Seq::empty());
    }
}

/// The page table's mappings and tables.
pub struct PageMapper {
    tables: Vec<TableEntry>,
    mappings: Vec<Mapping>,
}

impl PageMapper {
    pub closed spec fn tables(&self) -> Seq<TableEntry> {
        self.tables@
    }

    pub closed spec fn mappings(&self) -> Seq<Mapping> {
        self.mappings@
    }

    /// Every page is mapped once, and its walk is present.
    pub open spec fn wf(&self) -> bool {
        &&& forall|i: int, j: int|
            0 <= i < j < self.mappings().len() ==> #[trigger] self.mappings()[i].page
                != #[trigger] self.mappings()[j].page
        &&& forall|i: int|
            0 <= i < self.mappings().len() ==> walk_present(
                self.tables(),
                #[trigger] self.mappings()[i].page,
            )
    }

    /// Every frame in use lies wholly below `floor`, the point from which the
    /// frame allocator hands out frames: none of them can be handed out again.
    pub open spec fn frames_below(&self, floor: int) -> bool {
        &&& forall|i: int|
            0 <= i < self.tables().len() ==> #[trigger] self.tables()[i].frame + PAGE_SIZE <= floor
        &&& forall|i: int|
            0 <= i < self.mappings().len() ==> #[trigger] self.mappings()[i].frame + PAGE_SIZE
                <= floor
    }

    /// No frame serves two tables, two pages, or a table and a page.
    pub open spec fn frames_distinct(&self) -> bool {
        &&& forall|i: int, j: int|
            0 <= i < j < self.tables().len() ==> #[trigger] self.tables()[i].frame
                != #[trigger] self.tables()[j].frame
        &&& forall|i: int, j: int|
            0 <= i < j < self.mappings().len() ==> #[trigger] self.mappings()[i].frame
                != #[trigger] self.mappings()[j].frame
        &&& forall|i: int, j: int|
            0 <= i < self.tables().len() && 0 <= j < self.mappings().len()
                ==> #[trigger] self.tables()[i].frame != #[trigger] self.mappings()[j].frame
    }

    /// An empty page table.
    pub fn new() -> (r: PageMapper)
        ensures
            r.wf(),
            r.frames_distinct(),
            r.frames_below(0),
            r.tables() == Seq::<TableEntry>::empty(),
            r.mappings() == Seq::<Mapping>::empty(),
    {
        PageMapper { tables: Vec::new(), mappings: Vec::new() }
    }

    /// The frame `page` maps to and whether it is writable.
    pub fn translate(&self, page: u64) -> (r: Option<(u64, bool)>)
        ensures
            r is None <==> !is_mapped(self.mappings(), page),
            r matches Some((f, w)) ==> exists|i: int|
                0 <= i < self.mappings().len() && self.mappings()[i] == (Mapping {
                    page,
                    frame: f,
                    writable: w,
                }),
    {
        let mut i: usize = 0;
        while i < self.mappings.len()
            invariant
                i <= self.mappings@.len(),
                forall|j: int| 0 <= j < i ==> self.mappings@[j].page != page,
            decreases self.mappings@.len() - i,
        {
            let m = self.mappings[i];
            if m.page == page {
                assert(self.mappings()[i as int] == (Mapping { page, frame: m.frame, writable: m.writable }));
                return Some((m.frame, m.writable));
            }
            i = i + 1;
        }
        None
    }

    fn find_table(&self, level: u8, key: u64) -> (r: bool)
        ensures
            r == has_table(self.tables(), level, key),
    {
        let mut i: usize = 0;
        while i < self.tables.len()
            invariant
                i <= self.tables@.len(),
                forall|j: int| 0 <= j < i ==> !(self.tables@[j].level == level && self.tables@[j].key == key),
            decreases self.tables@.len() - i,
        {
            if self.tables[i].level == level && self.tables[i].key == key {
                return true;
            }
            i = i + 1;
        }
        false
    }

    /// Makes sure the table of `level` and `key` is present, taking a frame
    /// for it if it is not. False when a frame was needed and none was left.
    fn ensure_table(&mut self, level: u8, key: u64, frames: &mut BootInfoFrameAllocator) -> (r:
        bool)
        requires
            old(frames).wf(),
            old(self).frames_distinct(),
            old(self).frames_below(old(frames).floor()),
        ensures
            final(frames).wf(),
            final(frames).regions() == old(frames).regions(),
            final(frames).floor() >= old(frames).floor(),
            final(self).mappings() == old(self).mappings(),
            final(self).frames_distinct(),
            final(self).frames_below(final(frames).floor()),
            forall|l: u8, k: u64| has_table(old(self).tables(), l, k) ==> has_table(final(self).tables(), l, k),
            forall|i: int|
                0 <= i < final(self).tables().len() ==> #[trigger] is_usable_frame(
                    old(frames).regions(),
                    final(self).tables()[i].frame as int,
                ) || i < old(self).tables().len(),
            r ==> has_table(final(self).tables(), level, key),
            table_step(
                old(frames).regions(),
                old(self).tables(),
                old(frames).floor(),
                level,
                key,
                r,
                final(self).tables(),
                final(frames).floor(),
            ),
    {
        if self.find_table(level, key) {
            return true;
        }
        match frames.allocate_frame() {
            None => false,
            Some(f) => {
                let ghost old_tables = self.tables@;
                self.tables.push(TableEntry { level, key, frame: f });
                proof {
                    crate::memory::lemma_next_frame_props(old(frames).regions(), old(frames).floor());
                    crate::memory::lemma_next_frame_props(old(frames).regions(), old(frames).floor());
                    let n = old_tables.len() as int;
                    assert(self.tables()[n].level == level && self.tables()[n].key == key);
                    assert forall|l: u8, k: u64| has_table(old_tables, l, k) implies has_table(
                        self.tables(),
                        l,
                        k,
                    ) by {
                        let i = choose|i: int| 0 <= i < old_tables.len() && #[trigger] old_tables[i].level == l && old_tables[i].key == k;
                        assert(self.tables()[i] == old_tables[i]);
                    }
                    assert forall|i: int| 0 <= i < self.tables().len() implies #[trigger] self.tables()[i].frame
                        + PAGE_SIZE <= frames.floor() by {
                        if i < n {
                            assert(self.tables()[i] == old_tables[i]);
                        }
                    }
                    assert forall|i: int, j: int| 0 <= i < j < self.tables().len() implies #[trigger] self.tables()[i].frame
                        != #[trigger] self.tables()[j].frame by {
                        assert(self.tables()[i] == old_tables[i] || i == n);
                        if j == n {
                            assert(old_tables[i].frame + PAGE_SIZE <= old(frames).floor());
                        }
                    }
                    assert forall|i: int, j: int|
                        0 <= i < self.tables().len() && 0 <= j < self.mappings().len()
                            implies #[trigger] self.tables()[i].frame != #[trigger] self.mappings()[j].frame by {
                        assert(self.mappings()[j] == old(self).mappings()[j]);
                        if i == n {
                            assert(old(self).mappings()[j].frame + PAGE_SIZE <= old(frames).floor());
                        } else {
                            assert(self.tables()[i] == old_tables[i]);
                        }
                    }
                }
                true
            },
        }
    }

    /// Maps `page` to a fresh frame, creating the intermediate tables its walk
    /// lacks on the way. Fails with `PageAlreadyMapped`, changing nothing, when
    /// the page has a mapping, and with `FrameAllocationFailed` only when the
    /// frame allocator ran dry; tables made before that stay.
    pub fn map_page(&mut self, page: u64, writable: bool, frames: &mut BootInfoFrameAllocator) -> (r:
        Result<u64, MapError>)
        requires
            page % PAGE_SIZE == 0,
            old(self).wf(),
            old(self).frames_distinct(),
            old(self).frames_below(old(frames).floor()),
            old(frames).wf(),
        ensures
            final(self).wf(),
            final(self).frames_distinct(),
            final(self).frames_below(final(frames).floor()),
            final(frames).wf(),
            final(frames).regions() == old(frames).regions(),
            forall|l: u8, k: u64| has_table(old(self).tables(), l, k) ==> has_table(final(self).tables(), l, k),
            (r == Err::<u64, MapError>(MapError::PageAlreadyMapped)) <==> is_mapped(old(self).mappings(), page),
            r == Err::<u64, MapError>(MapError::PageAlreadyMapped) ==> *final(self) == *old(self)
                && *final(frames) == *old(frames),
            r == Err::<u64, MapError>(MapError::FrameAllocationFailed) ==> final(self).mappings()
                == old(self).mappings() && next_frame(final(frames).regions(), final(frames).floor())
                is None,
            r != Err::<u64, MapError>(MapError::PageAlreadyMapped) ==> final(self).tables().len()
                >= old(self).tables().len() && final(self).tables().take(old(self).tables().len() as int)
                == old(self).tables() && table_keys(final(self).tables().skip(old(self).tables().len() as int))
                == missing_walk(old(self).tables(), page).take(
                final(self).tables().len() - old(self).tables().len(),
            ),
            r == Err::<u64, MapError>(MapError::FrameAllocationFailed) ==> frames_issued(
                old(frames).regions(),
                old(frames).floor(),
                (final(self).tables().len() - old(self).tables().len() + 1) as nat,
            ) == table_frames(final(self).tables().skip(old(self).tables().len() as int)),
            r matches Ok(f) ==> table_keys(final(self).tables().skip(old(self).tables().len() as int))
                == missing_walk(old(self).tables(), page) && frames_issued(
                old(frames).regions(),
                old(frames).floor(),
                (final(self).tables().len() - old(self).tables().len() + 1) as nat,
            ) == table_frames(final(self).tables().skip(old(self).tables().len() as int)).push(f),
            r matches Ok(f) ==> final(self).mappings() == old(self).mappings().push(
                Mapping { page, frame: f, writable },
            ) && is_usable_frame(old(frames).regions(), f as int) && f >= old(frames).floor()
                && final(frames).floor() == f + PAGE_SIZE,
    {
        if self.translate(page).is_some() {
            return Err(MapError::PageAlreadyMapped);
        }
        let ghost frames0 = *frames;
        let ghost regions = frames.regions();
        let ghost fl0 = frames.floor();
        let ghost t0 = self.tables();
        let ghost k3 = table_key(page, 3);
        let ghost k2 = table_key(page, 2);
        let ghost k1 = table_key(page, 1);
        let ghost s3: Seq<(u8, u64)> = if has_table(t0, 3, k3) { Seq::empty() } else { seq![(3u8, k3)] };
        let ghost s2: Seq<(u8, u64)> = if has_table(t0, 2, k2) { Seq::empty() } else { seq![(2u8, k2)] };
        let ghost s1: Seq<(u8, u64)> = if has_table(t0, 1, k1) { Seq::empty() } else { seq![(1u8, k1)] };
        proof {
            assert(t0.take(t0.len() as int) =~= t0);
            assert(table_frames(t0.skip(t0.len() as int)) =~= Seq::<u64>::empty());
            assert(table_keys(t0.skip(t0.len() as int)) =~= Seq::<(u8, u64)>::empty());
            assert(frames_issued(regions, fl0, 0) =~= Seq::<u64>::empty());
            assert(floor_after(regions, fl0, 0) == fl0);
            assert(missing_walk(t0, page) == s3 + s2 + s1);
        }
        let ghost ta = self.tables();
        let ghost fa = frames.floor();
        let r3 = self.ensure_table(3, page / LEVEL3_SPAN, frames);
        proof {
            lemma_walk_step(regions, fl0, t0, ta, fa, 3, k3, r3, self.tables(), frames.floor());
            assert(table_keys(self.tables().skip(t0.len() as int)) =~= (if r3 { s3 } else { Seq::empty() }));
        }
        if !r3 {
            proof {
                assert(missing_walk(t0, page).take(0) =~= Seq::<(u8, u64)>::empty());
                lemma_issue_step(regions, fl0, (self.tables().len() - t0.len()) as nat);
            }
            return Err(MapError::FrameAllocationFailed);
        }
        let ghost tb = self.tables();
        let ghost fb = frames.floor();
        let r2 = self.ensure_table(2, page / LEVEL2_SPAN, frames);
        proof {
            lemma_walk_step(regions, fl0, t0, tb, fb, 2, k2, r2, self.tables(), frames.floor());
            assert(has_table(tb, 2, k2) == has_table(t0, 2, k2));
            assert(table_keys(self.tables().skip(t0.len() as int)) =~= s3 + (if r2 { s2 } else { Seq::empty() }));
        }
        if !r2 {
            proof {
                assert(missing_walk(t0, page).take(s3.len() as int) =~= s3);
                lemma_issue_step(regions, fl0, (self.tables().len() - t0.len()) as nat);
            }
            return Err(MapError::FrameAllocationFailed);
        }
        let ghost tc = self.tables();
        let ghost fc = frames.floor();
        let r1 = self.ensure_table(1, page / LEVEL1_SPAN, frames);
        proof {
            lemma_walk_step(regions, fl0, t0, tc, fc, 1, k1, r1, self.tables(), frames.floor());
            assert(has_table(tc, 1, k1) == has_table(tb, 1, k1));
            assert(has_table(tb, 1, k1) == has_table(t0, 1, k1));
            assert(table_keys(self.tables().skip(t0.len() as int)) =~= s3 + s2 + (if r1 { s1 } else { Seq::empty() }));
        }
        if !r1 {
            proof {
                assert(missing_walk(t0, page).take((s3 + s2).len() as int) =~= s3 + s2);
                lemma_issue_step(regions, fl0, (self.tables().len() - t0.len()) as nat);
            }
            return Err(MapError::FrameAllocationFailed);
        }
        proof {
            assert(missing_walk(t0, page).take(missing_walk(t0, page).len() as int) =~= missing_walk(t0, page));
            lemma_issue_step(regions, fl0, (self.tables().len() - t0.len()) as nat);
        }
        let ghost before = *self;
        let ghost floor1 = frames.floor();
        match frames.allocate_frame() {
            None => Err(MapError::FrameAllocationFailed),
            Some(f) => {
                self.mappings.push(Mapping { page, frame: f, writable });
                proof {
                    crate::memory::lemma_next_frame_props(frames0.regions(), floor1);
                    let n = before.mappings().len() as int;
                    assert(self.mappings() == before.mappings().push(Mapping { page, frame: f, writable }));
                    assert forall|i: int, j: int|
                        0 <= i < j < self.mappings().len() implies #[trigger] self.mappings()[i].page
                            != #[trigger] self.mappings()[j].page by {
                        if j == n {
                            assert(before.mappings()[i].page != page);
                        } else {
                            assert(self.mappings()[i] == before.mappings()[i]);
                            assert(self.mappings()[j] == before.mappings()[j]);
                        }
                    }
                    assert forall|i: int| 0 <= i < self.mappings().len() implies walk_present(
                        self.tables(),
                        #[trigger] self.mappings()[i].page,
                    ) by {
                        if i < n {
                            assert(self.mappings()[i] == before.mappings()[i]);
                            assert(walk_present(old(self).tables(), old(self).mappings()[i].page));
                        }
                    }
                    assert forall|i: int| 0 <= i < self.mappings().len() implies #[trigger] self.mappings()[i].frame
                        + PAGE_SIZE <= frames.floor() by {
                        if i < n {
                            assert(self.mappings()[i] == before.mappings()[i]);
                        }
                    }
                    assert forall|i: int, j: int| 0 <= i < j < self.mappings().len() implies #[trigger] self.mappings()[i].frame
                        != #[trigger] self.mappings()[j].frame by {
                        assert(self.mappings()[i] == before.mappings()[i]);
                        if j == n {
                            assert(before.mappings()[i].frame + PAGE_SIZE <= floor1);
                        } else {
                            assert(self.mappings()[j] == before.mappings()[j]);
                        }
                    }
                    assert forall|i: int, j: int|
                        0 <= i < self.tables().len() && 0 <= j < self.mappings().len()
                            implies #[trigger] self.tables()[i].frame != #[trigger] self.mappings()[j].frame by {
                        if j == n {
                            assert(self.tables()[i].frame + PAGE_SIZE <= floor1);
                        } else {
                            assert(self.mappings()[j] == before.mappings()[j]);
                        }
                    }
                }
                Ok(f)
            },
        }
    }

    /// Maps the `pages` consecutive pages from `start`, each to a fresh frame,
    /// stopping at the first failure; pages mapped before it stay mapped.
    pub fn map_range(
        &mut self,
        start: u64,
        pages: u64,
        writable: bool,
        frames: &mut BootInfoFrameAllocator,
    ) -> (r: Result<(), MapError>)
        requires
            start % PAGE_SIZE == 0,
            start + pages * PAGE_SIZE <= u64::MAX,
            old(self).wf(),
            old(self).frames_distinct(),
            old(self).frames_below(old(frames).floor()),
            old(frames).wf(),
        ensures
            final(self).wf(),
            final(self).frames_distinct(),
            final(self).frames_below(final(frames).floor()),
            final(frames).wf(),
            final(frames).regions() == old(frames).regions(),
            forall|p: u64| is_mapped(old(self).mappings(), p) ==> is_mapped(final(self).mappings(), p),
            r is Ok ==> forall|k: int|
                0 <= k < pages ==> is_mapped_as(final(self).mappings(), #[trigger] (start + k * PAGE_SIZE) as u64, writable)
                    && !is_mapped(old(self).mappings(), (start + k * PAGE_SIZE) as u64),
            r == Err::<(), MapError>(MapError::PageAlreadyMapped) ==> exists|k: int|
                0 <= k < pages && is_mapped(old(self).mappings(), #[trigger] (start + k * PAGE_SIZE) as u64),
            r == Err::<(), MapError>(MapError::FrameAllocationFailed) ==> next_frame(
                final(frames).regions(),
                final(frames).floor(),
            ) is None,
    {
        let mut k: u64 = 0;
        while k < pages
            invariant
                k <= pages,
                start % PAGE_SIZE == 0,
                start + pages * PAGE_SIZE <= u64::MAX,
                self.wf(),
                self.frames_distinct(),
                self.frames_below(frames.floor()),
                frames.wf(),
                frames.regions() == old(frames).regions(),
                forall|p: u64| is_mapped(old(self).mappings(), p) ==> is_mapped(self.mappings(), p),
                forall|j: int|
                    0 <= j < k ==> is_mapped_as(self.mappings(), #[trigger] (start + j * PAGE_SIZE) as u64, writable)
                        && !is_mapped(old(self).mappings(), (start + j * PAGE_SIZE) as u64),
                forall|p: u64|
                    is_mapped(self.mappings(), p) && !is_mapped(old(self).mappings(), p) ==> exists|j: int|
                        0 <= j < k && p == #[trigger] (start + j * PAGE_SIZE) as u64,
            decreases pages - k,
        {
            let page = start + k * PAGE_SIZE;
            assert(page % PAGE_SIZE == 0) by (nonlinear_arith)
                requires
                    start % PAGE_SIZE == 0,
                    page == start + k * PAGE_SIZE,
            ;
            let ghost before = self.mappings();
            match self.map_page(page, writable, frames) {
                Ok(_) => {
                    proof {
                        assert(self.mappings()[before.len() as int].page == page);
                        assert forall|j: int| 0 <= j < k + 1 implies is_mapped_as(
                            self.mappings(),
                            #[trigger] (start + j * PAGE_SIZE) as u64,
                            writable,
                        ) by {
                            if j < k {
                                let p = (start + j * PAGE_SIZE) as u64;
                                assert(is_mapped_as(before, p, writable));
                                let i = choose|i: int| 0 <= i < before.len() && #[trigger] before[i].page == p && before[i].writable == writable;
                                assert(self.mappings()[i] == before[i]);
                            } else {
                                assert(self.mappings()[before.len() as int].writable == writable);
                            }
                        }
                        assert forall|p: u64| is_mapped(before, p) implies is_mapped(self.mappings(), p) by {
                            let i = choose|i: int| 0 <= i < before.len() && #[trigger] before[i].page == p;
                            assert(self.mappings()[i] == before[i]);
                        }
                        assert forall|p: u64|
                            is_mapped(self.mappings(), p) && !is_mapped(old(self).mappings(), p) implies exists|j: int|
                                0 <= j < k + 1 && p == #[trigger] (start + j * PAGE_SIZE) as u64 by {
                            let i = choose|i: int| 0 <= i < self.mappings().len() && #[trigger] self.mappings()[i].page == p;
                            if i < before.len() {
                                assert(before[i] == self.mappings()[i]);
                                assert(is_mapped(before, p));
                            } else {
                                assert(p == (start + k * PAGE_SIZE) as u64);
                            }
                        }
                        assert(!is_mapped(old(self).mappings(), page)) by {
                            if is_mapped(old(self).mappings(), page) {
                                assert(is_mapped(before, page));
                            }
                        }
                    }
                },
                Err(e) => {
                    proof {
                        if e == MapError::PageAlreadyMapped {
                            assert(is_mapped(before, page));
                            if !is_mapped(old(self).mappings(), page) {
                                let j = choose|j: int| 0 <= j < k && page == #[trigger] (start + j * PAGE_SIZE) as u64;
                                assert(j * PAGE_SIZE < k * PAGE_SIZE) by (nonlinear_arith)
                                    requires
                                        j < k,
                                ;
                            }
                        }
                    }
                    return Err(e);
                },
            }
            k = k + 1;
        }
        Ok(())
    }
}

} // verus!
