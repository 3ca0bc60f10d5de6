//! Address spaces: sets of mapping areas over one page table.

use vstd::prelude::*;
use crate::trap::{TrapContext, TRAP_CONTEXT_WORDS};
use crate::task::pid::{spec_hart_stack_position, spec_kernel_stack_position};
use crate::config::{PAGE_SIZE, TRAMPOLINE, USER_STACK_SIZE, VA_LIMIT, VPN_LIMIT};
use crate::mm::elf::{load_segments, spec_validate, ElfError, ProgramHeader, PF_R, PF_W, PF_X};
use crate::mm::address::{PhysPageNum, VPNRange, VirtAddr, VirtPageNum};
use crate::mm::frame_allocator::{
    frame_alloc_n, frame_dealloc, law_dealloc_frees, lemma_allocate_n_adds_up,
    lemma_allocated_after, lemma_hands_out_first, lemma_hands_out_in_turn, FramePool, FrameTracker,
    StackFrameAllocator,
};
use crate::mm::page_table::{
    lemma_entry_round_trip, lemma_flag_bits, released_tables, MapError, PTEFlags, PageTable,
    PageTableEntry, FLAG_V,
};

verus! {

/// Area may be read.
pub const PERM_R: u8 = 2;

/// Area may be written.
pub const PERM_W: u8 = 4;

/// Area may be executed.
pub const PERM_X: u8 = 8;

/// Area may be used from user mode.
pub const PERM_U: u8 = 16;

/// What may be done with the pages of an area.
#[derive(Clone, Copy, Debug, PartialEq, Eq, Structural)]
pub struct MapPermission {
    pub bits: u8,
}

/// How the pages of an area are backed.
#[derive(Clone, Copy, Debug, PartialEq, Eq, Structural)]
pub enum MapType {
    /// Every virtual page is mapped to the physical page of the same number.
    Identical,
    /// Every virtual page is mapped to a frame of its own that the area owns.
    Framed,
}

/// One mapping area: a range of virtual pages with one permission and one
/// kind of backing.
#[derive(Debug)]
pub struct MapArea {
    pub vpn_range: VPNRange,
    pub data_frames: Vec<FrameTracker>,
    pub map_type: MapType,
    pub map_perm: MapPermission,
}

impl MapArea {
    /// The area describes a range and owns no frame yet.
    pub open spec fn fresh(&self) -> bool {
        &&& self.vpn_range.wf()
        &&& self.data_frames@.len() == 0
    }

    /// The area is mapped: a framed area owns one frame for each page, an
    /// identical one owns none.
    pub open spec fn wf(&self) -> bool {
        &&& self.vpn_range.wf()
        &&& match self.map_type {
            MapType::Identical => self.data_frames@.len() == 0,
            MapType::Framed => {
                &&& self.data_frames@.len() == self.vpn_range.spec_len()
                &&& forall|j: int|
                    0 <= j < self.data_frames@.len() ==> (#[trigger] self.data_frames@[j]).wf()
                        && self.data_frames@[j].ppn.wf()
            },
        }
    }

    /// The physical page that backs the page `vpn` of the area.
    pub open spec fn ppn_of(&self, vpn: u64) -> PhysPageNum {
        match self.map_type {
            MapType::Identical => PhysPageNum(vpn),
            MapType::Framed => self.data_frames@[vpn - self.vpn_range.start.0].ppn,
        }
    }

    /// The flags of the entries of the area: its permission and the valid
    /// bit.
    pub open spec fn flags(&self) -> PTEFlags {
        PTEFlags { bits: self.map_perm.bits | FLAG_V }
    }

    /// The page-table entry of the page `vpn` of the area.
    pub open spec fn entry_of(&self, vpn: u64) -> PageTableEntry {
        PageTableEntry::spec_new(self.ppn_of(vpn), self.flags())
    }

    /// The entries of the pages of the area below `upto`.
    pub open spec fn entries_upto(&self, upto: u64) -> Map<u64, PageTableEntry> {
        Map::new(|v: u64| self.vpn_range.start.0 <= v < upto, |v: u64| self.entry_of(v))
    }

    /// The entries of all pages of the area.
    pub open spec fn entries(&self) -> Map<u64, PageTableEntry> {
        self.entries_upto(self.vpn_range.end.0)
    }

    /// Every page of the area is in `mappings` with the entry of the area.
    pub open spec fn mapped_in(&self, mappings: Map<u64, PageTableEntry>) -> bool {
        forall|v: u64|
            self.vpn_range.spec_contains(VirtPageNum(v)) ==> #[trigger] mappings.dom().contains(v)
                && mappings[v] == self.entry_of(v)
    }

    /// Byte `offset` of a framed area, counted from the start of its first
    /// page.
    pub open spec fn byte(&self, offset: int) -> u8 {
        frames_byte(self.data_frames@, offset)
    }

    /// Bytes in the area.
    pub open spec fn size(&self) -> int {
        self.vpn_range.spec_len() * PAGE_SIZE
    }

    /// The area for the addresses from `start_va` up to, not including,
    /// `end_va`, widened to whole pages. It is empty when `end_va` is not
    /// above `start_va`.
    pub fn new(
        start_va: VirtAddr, end_va: VirtAddr, map_type: MapType, map_perm: MapPermission) -> (r:
        MapArea)
        requires
            start_va.wf(),
            end_va.wf(),
        ensures
            r.fresh(),
            r.vpn_range.start.0 == start_va.0 / PAGE_SIZE,
            r.vpn_range.end.0 == if start_va.0 < end_va.0 {
                (end_va.0 + PAGE_SIZE - 1) / (PAGE_SIZE as int)
            } else {
                start_va.0 as int / (PAGE_SIZE as int)
            },
            r.map_type == map_type,
            r.map_perm == map_perm,
    {
        let start = start_va.floor();
        let end = if start_va.0 < end_va.0 {
            end_va.ceil()
        } else {
            start
        };
        MapArea {
            vpn_range: VPNRange::new(start, end),
            data_frames: Vec::new(),
            map_type,
            map_perm,
        }
    }
}

/// One address space.
#[derive(Debug)]
pub struct MemorySet {
    pub page_table: PageTable,
    pub areas: Vec<MapArea>,
}

impl MemorySet {
    /// No page lies in both area `i` and area `j`.
    pub open spec fn areas_apart(&self, i: int, j: int) -> bool {
        forall|v: u64|
            !(self.areas@[i].vpn_range.spec_contains(VirtPageNum(v))
                && #[trigger] self.areas@[j].vpn_range.spec_contains(VirtPageNum(v)))
    }

    /// Area `i` is mapped in the page table.
    pub open spec fn area_ok(&self, i: int) -> bool {
        &&& self.areas@[i].wf()
        &&& self.areas@[i].mapped_in(self.page_table@)
    }

    /// The page table is well formed, every area is mapped in it, and no
    /// two areas share a page.
    pub open spec fn wf(&self) -> bool {
        &&& self.page_table.wf()
        &&& forall|i: int| 0 <= i < self.areas@.len() ==> #[trigger] self.area_ok(i)
        &&& forall|i: int, j: int|
            0 <= i < self.areas@.len() && 0 <= j < self.areas@.len() && i != j
                ==> #[trigger] self.areas_apart(i, j)
    }

    /// A frame of an area has the page number `ppn`.
    pub open spec fn owns_data(&self, ppn: u64) -> bool {
        exists|i: int, j: int|
            0 <= i < self.areas@.len() && 0 <= j < self.areas@[i].data_frames@.len() && (
            #[trigger] self.areas@[i].data_frames@[j]).ppn.0 == ppn
    }

    /// A frame of an area or of a table of the page table has the page
    /// number `ppn`.
    pub open spec fn owns(&self, ppn: u64) -> bool {
        self.page_table.ppns().contains(ppn) || self.owns_data(ppn)
    }

    /// Every frame of the address space is handed out by `pool`, and no
    /// frame of a table is a frame of an area.
    pub open spec fn sound_in(&self, pool: FramePool) -> bool {
        &&& forall|ppn: u64| #[trigger] self.owns(ppn) ==> pool.is_allocated(ppn)
        &&& forall|ppn: u64|
            !(#[trigger] self.page_table.ppns().contains(ppn) && self.owns_data(ppn))
    }

    /// The frames of the address space are those of `before` and the
    /// first `n` that the pool `pool` hands out.
    pub open spec fn took(&self, before: &MemorySet, pool: FramePool, n: nat) -> bool {
        forall|ppn: u64| #[trigger] self.owns(ppn) == (before.owns(ppn) || pool.hands_out(n, ppn))
    }

    /// The token that selects this address space.
    pub open spec fn spec_token(&self) -> u64 {
        self.page_table.spec_token()
    }

    /// An address space without areas, on a root table taken from `pool`.
    /// `None` when the pool has no free frame.
    pub fn new_bare(pool: &mut StackFrameAllocator) -> (r: Option<MemorySet>)
        requires
            old(pool).wf(),
        ensures
            final(pool).wf(),
            final(pool)@.same_bounds(old(pool)@),
            final(pool)@ == old(pool)@.allocate(),
            r is Some <==> old(pool)@.next() is Some,
            r matches Some(space) ==> {
                &&& space.wf()
                &&& space.areas@.len() == 0
                &&& space.page_table@ == Map::<u64, PageTableEntry>::empty()
                &&& space.page_table.root_ppn().0 == old(pool)@.next()->0
                &&& forall|ppn: u64| #[trigger] space.owns(ppn) == (old(pool)@.next() == Some(ppn))
                &&& forall|n: int| !(#[trigger] space.page_table.has_leaf(n))
                &&& forall|m: int| !(#[trigger] space.page_table.has_mid(m))
            },
    {
        match PageTable::new(pool) {
            Some(page_table) => {
                let space = MemorySet { page_table, areas: Vec::new() };
                proof {
                    assert forall|ppn: u64| !space.owns_data(ppn) by {}
                }
                Some(space)
            },
            None => None,
        }
    }

    /// The token that selects this address space.
    #[verifier::when_used_as_spec(spec_token)]
    pub fn token(&self) -> (r: u64)
        requires
            self.wf(),
        ensures
            r == self.spec_token(),
    {
        self.page_table.token()
    }

    /// The entry that maps `vpn`, or `None` when `vpn` is not mapped.
    pub fn translate(&self, vpn: VirtPageNum) -> (r: Option<PageTableEntry>)
        requires
            self.wf(),
        ensures
            r == if self.page_table.is_mapped(vpn) {
                Some(self.page_table@[vpn.0])
            } else {
                None
            },
    {
        self.page_table.translate(vpn)
    }

    /// Whether a page of `range` is mapped.
    fn range_meets_mapping(&self, range: &VPNRange) -> (r: bool)
        requires
            self.page_table.wf(),
            range.wf(),
        ensures
            r == exists|v: u64|
                range.spec_contains(VirtPageNum(v)) && #[trigger] self.page_table@.dom().contains(
                    v,
                ),
    {
        let mut v: u64 = range.start.0;
        while v < range.end.0
            invariant
                self.page_table.wf(),
                range.wf(),
                range.start.0 <= v <= range.end.0,
                forall|u: u64| range.start.0 <= u < v ==> !self.page_table@.dom().contains(u),
            decreases range.end.0 - v,
        {
            if self.page_table.translate(VirtPageNum(v)).is_some() {
                assert(range.spec_contains(VirtPageNum(v)) && self.page_table@.dom().contains(v));
                return true;
            }
            v = v + 1;
        }
        false
    }

    /// How many frames it takes to add `area`: one for each table that is
    /// lacking, and for a framed area one for each page.
    pub open spec fn frames_needed(&self, area: &MapArea) -> nat {
        self.page_table.tables_needed(
            area.vpn_range.start.0 as int,
            area.vpn_range.end.0 as int,
        ) + match area.map_type {
            MapType::Framed => area.vpn_range.spec_len(),
            MapType::Identical => 0,
        }
    }

    /// A page of `range` is mapped.
    pub open spec fn meets_mapping(&self, range: VPNRange) -> bool {
        exists|v: u64|
            range.spec_contains(VirtPageNum(v)) && #[trigger] self.page_table@.dom().contains(v)
    }

    /// Adds `area` to the address space: maps every page of it and, for a
    /// framed area, gives every page a zero-filled frame and copies `data`
    /// to the start of the area.
    ///
    /// Fails with `AlreadyMapped` when a page of the area is mapped already,
    /// which is so whenever the area meets another area; the pool is then
    /// as it was. Else fails with `OutOfMemory` when the pool has fewer free
    /// frames than the area takes; the frames for the lacking tables are
    /// then taken nevertheless, as far as they go. A failure leaves the
    /// areas and every mapping as they were.
    pub fn push(&mut self, pool: &mut StackFrameAllocator, area: MapArea, data: &[u8]) -> (r:
        Result<(), MapError>)
        requires
            old(self).wf(),
            old(pool).wf(),
            area.fresh(),
            data@.len() <= area.size(),
            data@.len() > 0 ==> area.map_type is Framed,
        ensures
            final(self).wf(),
            final(pool).wf(),
            final(pool)@.same_bounds(old(pool)@),
            final(self).page_table.root_ppn() == old(self).page_table.root_ppn(),
            forall|v: u64| #[trigger]
                old(self).page_table@.dom().contains(v) ==> final(self).page_table@.dom().contains(
                    v,
                ) && final(self).page_table@[v] == old(self).page_table@[v],
            r == if old(self).meets_mapping(area.vpn_range) {
                Err::<(), MapError>(MapError::AlreadyMapped)
            } else if old(pool)@.free_count() < old(self).frames_needed(&area) {
                Err(MapError::OutOfMemory)
            } else {
                Ok(())
            },
            final(self).took(
                old(self),
                old(pool)@,
                match r {
                    Ok(_) => old(self).frames_needed(&area),
                    Err(MapError::OutOfMemory) => old(self).page_table.tables_needed(
                        area.vpn_range.start.0 as int,
                        area.vpn_range.end.0 as int,
                    ),
                    Err(_) => 0,
                },
            ),
            old(self).sound_in(old(pool)@) ==> final(self).sound_in(final(pool)@),
            final(pool)@ == match r {
                Ok(_) => old(pool)@.allocate_n(old(self).frames_needed(&area)),
                Err(MapError::OutOfMemory) => old(pool)@.allocate_n(
                    old(self).page_table.tables_needed(
                        area.vpn_range.start.0 as int,
                        area.vpn_range.end.0 as int,
                    ),
                ),
                Err(_) => old(pool)@,
            },
            r is Err ==> final(self).areas@ == old(self).areas@
                && final(self).page_table@ == old(self).page_table@,
            r is Ok ==> {
                let added = final(self).areas@.last();
                let tables = old(self).page_table.tables_needed(
                    area.vpn_range.start.0 as int,
                    area.vpn_range.end.0 as int,
                );
                &&& final(self).areas@ == old(self).areas@.push(added)
                &&& added.wf()
                &&& added.vpn_range == area.vpn_range
                &&& added.map_type == area.map_type
                &&& added.map_perm == area.map_perm
                &&& final(self).page_table@ == old(self).page_table@.union_prefer_right(
                    added.entries(),
                )
                &&& final(self).page_table.covers_since(
                    &old(self).page_table,
                    area.vpn_range.start.0 as int,
                    area.vpn_range.end.0 as int,
                )
                &&& forall|j: int|
                    0 <= j < added.data_frames@.len() ==> old(pool)@.allocate_n(
                        (tables + j) as nat,
                    ).next() == Some((#[trigger] added.data_frames@[j]).ppn.0)
                &&& added.map_type is Framed ==> forall|off: int|
                    0 <= off < added.size() ==> #[trigger] added.byte(off) == if off < data@.len() {
                        data@[off]
                    } else {
                        0u8
                    }
            },
    {
        let mut area = area;
        let ghost tables = self.page_table.tables_needed(
            area.vpn_range.start.0 as int,
            area.vpn_range.end.0 as int,
        );
        if self.range_meets_mapping(&area.vpn_range) {
            proof {
                assert forall|p: u64| !(#[trigger] pool@.hands_out(0, p)) by {
                    lemma_hands_out_first(pool@, p);
                }
            }
            return Err(MapError::AlreadyMapped);
        }
        let ghost before = *self;
        proof {
            lemma_allocate_n_adds_up(pool@, tables, 0);
            lemma_allocate_n_adds_up(pool@, tables, area.vpn_range.spec_len());
        }
        if !self.page_table.ensure_tables_for(pool, &area.vpn_range) {
            proof {
                lemma_same_mappings_keep_wf(before, *self);
                assert forall|p: u64| self.owns_data(p) == before.owns_data(p) by {
                    lemma_same_areas_same_data(before, *self, p);
                }
                lemma_growth_keeps_sound(before, *self, old(pool)@, tables, 0);
            }
            return Err(MapError::OutOfMemory);
        }
        proof {
            assert forall|p: u64| self.owns_data(p) == before.owns_data(p) by {
                lemma_same_areas_same_data(before, *self, p);
            }
        }
        let ghost pool_with_tables = pool@;
        if let MapType::Framed = area.map_type {
            let mut frames = match frame_alloc_n(pool, area.vpn_range.len()) {
                Some(frames) => frames,
                None => {
                    proof {
                        lemma_same_mappings_keep_wf(before, *self);
                        lemma_growth_keeps_sound(before, *self, old(pool)@, tables, 0);
                    }
                    return Err(MapError::OutOfMemory);
                },
            };
            assert(frames@.len() == area.vpn_range.spec_len());
            proof {
                assert forall|j: int| 0 <= j < frames@.len() implies old(pool)@.allocate_n(
                    (tables + j) as nat,
                ).next() == Some((#[trigger] frames@[j]).ppn.0) by {
                    lemma_allocate_n_adds_up(old(pool)@, tables, j as nat);
                }
            }
            proof {
                assert forall|off: int| 0 <= off < frames@.len() * PAGE_SIZE implies #[trigger]
                    frames_byte(frames@, off) == 0u8 by {
                    let j = off / (PAGE_SIZE as int);
                    assert(0 <= j < frames@.len());
                    assert(frames@[j].byte(off % (PAGE_SIZE as int)) == 0);
                }
            }
            let ghost taken = frames@;
            fill_frames(&mut frames, data);
            proof {
                assert forall|j: int| 0 <= j < frames@.len() implies (#[trigger] frames@[j]).wf()
                    && frames@[j].ppn.wf() && frames@[j].ppn == taken[j].ppn by {
                    assert(taken[j].wf());
                }
            }
            area.data_frames = frames;
        }
        let ghost with_tables = self.page_table;
        map_pages(&mut self.page_table, &area);
        let ghost added = area;
        self.areas.push(area);
        proof {
            let pt0 = before.page_table@;
            assert forall|u: u64| added.vpn_range.spec_contains(VirtPageNum(u)) implies
                !pt0.dom().contains(
                u,
            ) by {}
            let n_old = before.areas@.len() as int;
            assert(self.areas@.last() == added);
            assert forall|i: int| 0 <= i < self.areas@.len() implies #[trigger] self.area_ok(
                i,
            ) by {
                if i < n_old {
                    assert(before.area_ok(i));
                    assert(self.areas@[i] == before.areas@[i]);
                }
            }
            assert forall|i: int, j: int|
                0 <= i < self.areas@.len() && 0 <= j < self.areas@.len() && i != j implies
                    #[trigger]
                self.areas_apart(i, j) by {
                if i < n_old && j < n_old {
                    assert(before.areas_apart(i, j));
                } else {
                    let other = if i < n_old {
                        i
                    } else {
                        j
                    };
                    assert(before.area_ok(other));
                    assert forall|u: u64|
                        !(self.areas@[i].vpn_range.spec_contains(VirtPageNum(u))
                            && #[trigger] self.areas@[j].vpn_range.spec_contains(
                            VirtPageNum(u),
                        )) by {
                        if before.areas@[other].vpn_range.spec_contains(VirtPageNum(u)) {
                            assert(pt0.dom().contains(u));
                        }
                    }
                }
            }
            assert forall|off: int| 0 <= off < added.size() implies #[trigger] added.byte(off)
                == frames_byte(added.data_frames@, off) by {}
            assert forall|n: int| #[trigger]
                self.page_table.has_leaf(n) == with_tables.has_leaf(n) by {}
            assert forall|m: int| #[trigger]
                self.page_table.has_mid(m) == with_tables.has_mid(m) by {}
            let pages = added.data_frames@.len();
            assert forall|p: u64| #[trigger]
                self.owns(p) == (before.owns(p) || old(pool)@.hands_out(
                    before.frames_needed(&added),
                    p,
                )) by {
                lemma_hands_out_in_turn(old(pool)@, tables, pages, p);
                assert(self.page_table.ppns().contains(p) == with_tables.ppns().contains(p));
                assert(with_tables.ppns().contains(p) == (before.page_table.ppns().contains(p)
                    || old(pool)@.hands_out(tables, p)));
                if before.owns_data(p) {
                    let (i, j) = choose|i: int, j: int|
                        0 <= i < before.areas@.len() && 0 <= j < before.areas@[i].data_frames@.len()
                            && (#[trigger] before.areas@[i].data_frames@[j]).ppn.0 == p;
                    assert(self.areas@[i].data_frames@[j].ppn.0 == p);
                }
                if pool_with_tables.hands_out(pages, p) {
                    let j = choose|j: nat|
                        j < pages && #[trigger] pool_with_tables.allocate_n(j).next() == Some(p);
                    lemma_allocate_n_adds_up(old(pool)@, tables, j);
                    assert(added.data_frames@[j as int].ppn.0 == p);
                    assert(self.areas@[n_old].data_frames@[j as int].ppn.0 == p);
                }
                if self.owns_data(p) {
                    let (i, j) = choose|i: int, j: int|
                        0 <= i < self.areas@.len() && 0 <= j < self.areas@[i].data_frames@.len()
                            && (#[trigger] self.areas@[i].data_frames@[j]).ppn.0 == p;
                    if i < n_old {
                        assert(before.areas@[i].data_frames@[j].ppn.0 == p);
                    } else {
                        lemma_allocate_n_adds_up(old(pool)@, tables, j as nat);
                        assert(pool_with_tables.allocate_n(j as nat).next() == Some(p));
                    }
                }
            }
            assert forall|p: u64| #[trigger]
                self.owns_data(p) == (before.owns_data(p) || pool_with_tables.hands_out(
                    pages,
                    p,
                )) by {
                if before.owns_data(p) {
                    let (i, j) = choose|i: int, j: int|
                        0 <= i < before.areas@.len() && 0 <= j < before.areas@[i].data_frames@.len()
                            && (#[trigger] before.areas@[i].data_frames@[j]).ppn.0 == p;
                    assert(self.areas@[i].data_frames@[j].ppn.0 == p);
                }
                if pool_with_tables.hands_out(pages, p) {
                    let j = choose|j: nat|
                        j < pages && #[trigger] pool_with_tables.allocate_n(j).next() == Some(p);
                    lemma_allocate_n_adds_up(old(pool)@, tables, j);
                    assert(added.data_frames@[j as int].ppn.0 == p);
                    assert(self.areas@[n_old].data_frames@[j as int].ppn.0 == p);
                }
                if self.owns_data(p) {
                    let (i, j) = choose|i: int, j: int|
                        0 <= i < self.areas@.len() && 0 <= j < self.areas@[i].data_frames@.len()
                            && (#[trigger] self.areas@[i].data_frames@[j]).ppn.0 == p;
                    if i < n_old {
                        assert(before.areas@[i].data_frames@[j].ppn.0 == p);
                    } else {
                        lemma_allocate_n_adds_up(old(pool)@, tables, j as nat);
                        assert(pool_with_tables.allocate_n(j as nat).next() == Some(p));
                    }
                }
            }
            assert forall|p: u64| #[trigger]
                self.page_table.ppns().contains(p) == (before.page_table.ppns().contains(p)
                    || old(pool)@.hands_out(tables, p)) by {
                assert(self.page_table.ppns().contains(p) == with_tables.ppns().contains(p));
            }
            lemma_growth_keeps_sound(before, *self, old(pool)@, tables, pages);
        }
        Ok(())
    }

    /// How many frames it takes to add a framed area on the pages of
    /// `range`: one for each table that is lacking, and one for each page.
    pub open spec fn framed_needs(&self, range: VPNRange) -> nat {
        self.page_table.tables_needed(range.start.0 as int, range.end.0 as int) + range.spec_len()
    }

    /// Adds a framed area for the addresses from `start_va` up to, not
    /// including, `end_va`, widened to whole pages, with zero-filled pages.
    ///
    /// Fails with `AlreadyMapped` when a page of the area is mapped
    /// already; the pool is then as it was. Else fails with `OutOfMemory`
    /// when the pool has fewer free frames than the area takes; the frames
    /// for the lacking tables are then taken nevertheless, as far as they
    /// go. A failure leaves the areas and every mapping as they were.
    pub fn insert_framed_area(
        &mut self,
        pool: &mut StackFrameAllocator,
        start_va: VirtAddr,
        end_va: VirtAddr,
        permission: MapPermission,
    ) -> (r: Result<(), MapError>)
        requires
            old(self).wf(),
            old(pool).wf(),
            start_va.wf(),
            end_va.wf(),
        ensures
            final(self).wf(),
            final(pool).wf(),
            final(pool)@.same_bounds(old(pool)@),
            final(self).page_table.root_ppn() == old(self).page_table.root_ppn(),
            forall|v: u64| #[trigger]
                old(self).page_table@.dom().contains(v) ==> final(self).page_table@.dom().contains(
                    v,
                ) && final(self).page_table@[v] == old(self).page_table@[v],
            r == if old(self).meets_mapping(pages_of(start_va.0, end_va.0)) {
                Err::<(), MapError>(MapError::AlreadyMapped)
            } else if old(pool)@.free_count() < old(self).framed_needs(
                pages_of(start_va.0, end_va.0),
            ) {
                Err(MapError::OutOfMemory)
            } else {
                Ok(())
            },
            final(pool)@ == match r {
                Ok(_) => old(pool)@.allocate_n(
                    old(self).framed_needs(pages_of(start_va.0, end_va.0)),
                ),
                Err(MapError::OutOfMemory) => old(pool)@.allocate_n(
                    old(self).page_table.tables_needed(
                        pages_of(start_va.0, end_va.0).start.0 as int,
                        pages_of(start_va.0, end_va.0).end.0 as int,
                    ),
                ),
                Err(_) => old(pool)@,
            },
            final(self).took(
                old(self),
                old(pool)@,
                match r {
                    Ok(_) => old(self).framed_needs(pages_of(start_va.0, end_va.0)),
                    Err(MapError::OutOfMemory) => old(self).page_table.tables_needed(
                        pages_of(start_va.0, end_va.0).start.0 as int,
                        pages_of(start_va.0, end_va.0).end.0 as int,
                    ),
                    Err(_) => 0,
                },
            ),
            old(self).sound_in(old(pool)@) ==> final(self).sound_in(final(pool)@),
            r is Err ==> final(self).areas@ == old(self).areas@
                && final(self).page_table@ == old(self).page_table@,
            r is Ok ==> {
                let added = final(self).areas@.last();
                &&& final(self).areas@ == old(self).areas@.push(added)
                &&& holds_zeros(added, pages_of(start_va.0, end_va.0), permission.bits)
                &&& final(self).page_table@ == old(self).page_table@.union_prefer_right(
                    added.entries(),
                )
                &&& final(self).page_table.covers_since(
                    &old(self).page_table,
                    pages_of(start_va.0, end_va.0).start.0 as int,
                    pages_of(start_va.0, end_va.0).end.0 as int,
                )
            },
    {
        let area = MapArea::new(start_va, end_va, MapType::Framed, permission);
        let nothing: Vec<u8> = Vec::new();
        proof {
            assert(area.vpn_range == pages_of(start_va.0, end_va.0));
        }
        self.push(pool, area, nothing.as_slice())
    }

    /// Maps the trampoline page, the last page of the address space, to the
    /// physical page `code`, readable and executable. It belongs to no
    /// area. Fails as `PageTable::map` does.
    pub fn map_trampoline(&mut self, pool: &mut StackFrameAllocator, code: PhysPageNum) -> (r:
        Result<(), MapError>)
        requires
            old(self).wf(),
            old(pool).wf(),
            code.wf(),
        ensures
            final(self).wf(),
            final(pool).wf(),
            final(pool)@.same_bounds(old(pool)@),
            final(self).page_table.root_ppn() == old(self).page_table.root_ppn(),
            final(self).areas == old(self).areas,
            final(pool)@ == old(pool)@.allocate_n(
                old(self).page_table.tables_missing(trampoline_vpn()),
            ),
            r == if old(pool)@.free_count() < old(self).page_table.tables_missing(
                trampoline_vpn(),
            ) {
                Err::<(), MapError>(MapError::OutOfMemory)
            } else if old(self).page_table.is_mapped(trampoline_vpn()) {
                Err(MapError::AlreadyMapped)
            } else {
                Ok(())
            },
            r is Ok ==> final(self).page_table@ == old(self).page_table@.insert(
                trampoline_vpn().0,
                PageTableEntry::spec_new(code, PTEFlags { bits: PERM_R | PERM_X | FLAG_V }),
            ),
            r is Err ==> final(self).page_table@ == old(self).page_table@,
            final(self).took(
                old(self),
                old(pool)@,
                old(self).page_table.tables_missing(trampoline_vpn()),
            ),
            r is Ok ==> final(self).page_table.covers_since(
                &old(self).page_table,
                VPN_LIMIT - 1,
                VPN_LIMIT as int,
            ),
            old(self).sound_in(old(pool)@) ==> final(self).sound_in(final(pool)@),
    {
        let vpn = trampoline_page();
        let r = self.page_table.map(pool, vpn, code, PTEFlags::from_bits(PERM_R | PERM_X));
        proof {
            assert((2u8 | 8u8) | 1u8 == 2u8 | 8u8 | 1u8) by (bit_vector);
            assert forall|i: int| 0 <= i < self.areas@.len() implies #[trigger] self.area_ok(i) by {
                assert(old(self).area_ok(i));
                assert(self.areas@[i].mapped_in(self.page_table@)) by {
                    assert forall|v: u64|
                        self.areas@[i].vpn_range.spec_contains(VirtPageNum(v)) implies #[trigger]
                        self.page_table@.dom().contains(v) && self.page_table@[v]
                        == self.areas@[i].entry_of(v) by {
                        assert(old(self).page_table@.dom().contains(v));
                    }
                }
            }
            assert forall|i: int, j: int|
                0 <= i < self.areas@.len() && 0 <= j < self.areas@.len() && i != j implies
                    #[trigger]
                self.areas_apart(i, j) by {
                assert(old(self).areas_apart(i, j));
            }
            assert forall|p: u64| self.owns_data(p) == old(self).owns_data(p) by {
                lemma_same_areas_same_data(*old(self), *self, p);
            }
            let tables = old(self).page_table.tables_missing(trampoline_vpn());
            assert forall|p: u64| #[trigger]
                self.owns_data(p) == (old(self).owns_data(p) || old(pool)@.allocate_n(
                    tables,
                ).hands_out(0, p)) by {
                lemma_allocate_n_adds_up(old(pool)@, tables, 0);
                lemma_hands_out_first(old(pool)@.allocate_n(tables), p);
            }
            lemma_growth_keeps_sound(*old(self), *self, old(pool)@, tables, 0);
        }
        r
    }

    /// Ends every area and gives its frames back to `pool`. The page table
    /// and its root stay.
    pub fn recycle_data_pages(&mut self, pool: &mut StackFrameAllocator)
        requires
            old(self).wf(),
            old(pool).wf(),
        ensures
            final(self).wf(),
            final(pool).wf(),
            final(pool)@.same_bounds(old(pool)@),
            final(self).areas@.len() == 0,
            final(self).page_table == old(self).page_table,
            final(pool)@ == released_areas(old(pool)@, old(self).areas@),
            forall|p: u64| #[trigger]
                final(pool)@.is_allocated(p) == (old(pool)@.is_allocated(p)
                    && !old(self).owns_data(p)),
            forall|p: u64| #[trigger] final(self).owns(p)
                == old(self).page_table.ppns().contains(p),
            old(self).sound_in(old(pool)@) ==> final(self).sound_in(final(pool)@),
    {
        proof {
            law_released_areas_are_free(old(pool)@, old(self).areas@, 0);
        }
        while self.areas.len() > 0
            invariant
                pool.wf(),
                pool@.same_bounds(old(pool)@),
                self.page_table == old(self).page_table,
                released_areas(pool@, self.areas@) == released_areas(old(pool)@, old(self).areas@),
            decreases self.areas@.len(),
        {
            let ghost before = self.areas@;
            let area = self.areas.pop().unwrap();
            assert(self.areas@ == before.drop_last());
            Self::release_frames(pool, area.data_frames);
        }
        proof {
            assert forall|p: u64| !self.owns_data(p) by {}
            assert forall|p: u64| #[trigger]
                pool@.is_allocated(p) == (old(pool)@.is_allocated(p) && !old(self).owns_data(
                    p,
                )) by {
                law_released_areas_are_free(old(pool)@, old(self).areas@, p);
                if old(self).owns_data(p) {
                    let (i, j) = choose|i: int, j: int|
                        0 <= i < old(self).areas@.len()
                            && 0 <= j < old(self).areas@[i].data_frames@.len()
                                && (#[trigger] old(self).areas@[i].data_frames@[j]).ppn.0 == p;
                    assert(old(self).areas@[i].data_frames@[j].ppn.0 == p);
                }
            }
            if old(self).sound_in(old(pool)@) {
                assert forall|p: u64| #[trigger] self.owns(p) implies pool@.is_allocated(p) by {
                    assert(old(self).owns(p));
                    assert(!(old(self).page_table.ppns().contains(p) && old(self).owns_data(p)));
                }
            }
        }
    }

    /// Ends the address space and gives all its frames back to `pool`:
    /// those of the areas, last area first, then those of the page table.
    /// Afterwards none of them is handed out, and every other frame is
    /// handed out exactly when it was before.
    pub fn destroy(self, pool: &mut StackFrameAllocator)
        requires
            self.wf(),
            old(pool).wf(),
        ensures
            final(pool).wf(),
            final(pool)@ == released_tables(
                released_areas(old(pool)@, self.areas@),
                self.page_table,
            ),
            final(pool)@.same_bounds(old(pool)@),
            final(pool)@.same_range(old(pool)@),
            forall|ppn: u64|
                #[trigger] final(pool)@.is_allocated(ppn) == (old(pool)@.is_allocated(ppn)
                    && !self.owns(ppn)),
    {
        let mut space = self;
        space.recycle_data_pages(pool);
        let ghost drained = pool@;
        space.page_table.release(pool);
        proof {
            assert forall|ppn: u64| #[trigger]
                pool@.is_allocated(ppn) == (old(pool)@.is_allocated(ppn) && !self.owns(ppn)) by {
                law_released_areas_are_free(old(pool)@, self.areas@, ppn);
                assert(pool@.is_allocated(ppn) == (drained.is_allocated(ppn)
                    && !self.page_table.ppns().contains(ppn)));
                if self.owns_data(ppn) {
                    let (i, j) = choose|i: int, j: int|
                        0 <= i < self.areas@.len() && 0 <= j < self.areas@[i].data_frames@.len()
                            && (#[trigger] self.areas@[i].data_frames@[j]).ppn.0 == ppn;
                    assert(self.areas@[i].data_frames@[j].ppn.0 == ppn);
                }
            }
            law_released_areas_are_free(old(pool)@, self.areas@, 0);
        }
    }

    /// The last area is the page of the trap context: framed, readable and
    /// writable from the kernel only.
    pub open spec fn has_trap_page(&self) -> bool {
        &&& self.areas@.len() > 0
        &&& self.areas@.last().wf()
        &&& self.areas@.last().vpn_range == trap_context_range()
        &&& self.areas@.last().map_type is Framed
        &&& self.areas@.last().map_perm.bits == PERM_R | PERM_W
    }

    /// The frame of the trap context.
    pub open spec fn trap_frame(&self) -> FrameTracker {
        self.areas@.last().data_frames@[0]
    }

    /// The index of the first area that starts at the page `start`, if
    /// there is one.
    pub open spec fn area_starting_at(&self, start: VirtPageNum) -> Option<int> {
        if exists|k: int| self.starts_at(k, start) {
            Some(choose|k: int| self.starts_at(k, start) && forall|j: int| 0 <= j < k
                ==> !self.starts_at(j, start))
        } else {
            None
        }
    }

    /// Area `k` starts at the page `start`.
    pub open spec fn starts_at(&self, k: int, start: VirtPageNum) -> bool {
        0 <= k < self.areas@.len() && self.areas@[k].vpn_range.start == start
    }

    /// Finds the first area that starts at the page `start`.
    fn find_area(&self, start: VirtPageNum) -> (r: Option<usize>)
        ensures
            match r {
                Some(k) => self.starts_at(k as int, start) && forall|j: int|
                    0 <= j < k ==> !self.starts_at(j, start),
                None => forall|j: int| !self.starts_at(j, start),
            },
    {
        let mut k: usize = 0;
        while k < self.areas.len()
            invariant
                k <= self.areas@.len(),
                forall|j: int| 0 <= j < k ==> !self.starts_at(j, start),
            decreases self.areas@.len() - k,
        {
            if self.areas[k].vpn_range.start.0 == start.0 {
                return Some(k);
            }
            k = k + 1;
        }
        None
    }

    /// Ends the first area that starts at the page `start`: unmaps its
    /// pages and gives its frames back to `pool`. Returns whether there was
    /// such an area; if not, nothing changes.
    #[verifier::loop_isolation(false)]
    pub fn remove_area_with_start_vpn(
        &mut self, pool: &mut StackFrameAllocator, start: VirtPageNum) -> (found:
        bool)
        requires
            old(self).wf(),
            old(pool).wf(),
        ensures
            final(self).wf(),
            final(pool).wf(),
            final(pool)@.same_bounds(old(pool)@),
            final(self).page_table.root_ppn() == old(self).page_table.root_ppn(),
            found == exists|k: int| old(self).starts_at(k, start),
            !found ==> *final(self) == *old(self) && *final(pool) == *old(pool),
            found ==> {
                let k = old(self).area_starting_at(start)->0;
                let area = old(self).areas@[k];
                &&& old(self).starts_at(k, start)
                &&& final(self).areas@ == old(self).areas@.remove(k)
                &&& final(self).page_table@ == old(self).page_table@.remove_keys(
                    Set::new(|v: u64| area.vpn_range.spec_contains(VirtPageNum(v))),
                )
                &&& final(pool)@ == released(old(pool)@, area.data_frames@)
            },
    {
        let k = match self.find_area(start) {
            Some(k) => k,
            None => {
                return false;
            },
        };
        proof {
            assert(old(self).starts_at(k as int, start));
            let chosen = old(self).area_starting_at(start)->0;
            assert(old(self).starts_at(chosen, start) && forall|j: int|
                0 <= j < chosen ==> !old(self).starts_at(j, start));
            if chosen < k {
                assert(!old(self).starts_at(chosen, start));
            }
            if k < chosen {
                assert(!old(self).starts_at(k as int, start));
            }
            assert(old(self).area_ok(k as int));
        }
        let area = self.areas.remove(k);
        let ghost pt0 = self.page_table@;
        let mut v: u64 = area.vpn_range.start.0;
        while v < area.vpn_range.end.0
            invariant
                self.page_table.wf(),
                area.vpn_range.start.0 <= v <= area.vpn_range.end.0,
                self.page_table.root_ppn() == old(self).page_table.root_ppn(),
                self.areas@ == old(self).areas@.remove(k as int),
                self.page_table@ == pt0.remove_keys(
                    Set::new(|u: u64| area.vpn_range.start.0 <= u < v),
                ),
            decreases area.vpn_range.end.0 - v,
        {
            let _ = self.page_table.unmap(VirtPageNum(v));
            proof {
                assert(self.page_table@ =~= pt0.remove_keys(
                    Set::new(|u: u64| area.vpn_range.start.0 <= u < v + 1),
                ));
            }
            v = v + 1;
        }
        proof {
            let gone = Set::new(|u: u64| area.vpn_range.spec_contains(VirtPageNum(u)));
            assert(Set::new(|u: u64| area.vpn_range.start.0 <= u < area.vpn_range.end.0) =~= gone);
            let n = self.areas@.len() as int;
            assert forall|i: int| 0 <= i < n implies #[trigger] self.area_ok(i) by {
                let o = if i < k {
                    i
                } else {
                    i + 1
                };
                assert(self.areas@[i] == old(self).areas@[o]);
                assert(old(self).area_ok(o));
                assert(old(self).areas_apart(o, k as int));
                assert forall|u: u64|
                    self.areas@[i].vpn_range.spec_contains(VirtPageNum(u)) implies #[trigger]
                    self.page_table@.dom().contains(u) && self.page_table@[u]
                    == self.areas@[i].entry_of(u) by {
                    assert(pt0.dom().contains(u));
                    assert(!(old(self).areas@[o].vpn_range.spec_contains(VirtPageNum(u))
                        && old(self).areas@[k as int].vpn_range.spec_contains(VirtPageNum(u))));
                }
            }
            assert forall|i: int, j: int|
                0 <= i < n && 0 <= j < n && i != j implies #[trigger] self.areas_apart(i, j) by {
                let oi = if i < k {
                    i
                } else {
                    i + 1
                };
                let oj = if j < k {
                    j
                } else {
                    j + 1
                };
                assert(self.areas@[i] == old(self).areas@[oi]);
                assert(self.areas@[j] == old(self).areas@[oj]);
                assert(old(self).areas_apart(oi, oj));
            }
        }
        Self::release_frames(pool, area.data_frames);
        true
    }

    /// The token to install in the address-translation register of a hart
    /// to make this address space the active one of the hart.
    pub fn activate(&self) -> (token: u64)
        requires
            self.wf(),
        ensures
            token == self.spec_token(),
    {
        self.token()
    }

    /// Writes `cx` to the page of the trap context. Nothing else changes.
    pub fn store_trap_context(&mut self, cx: &TrapContext)
        requires
            old(self).wf(),
            old(self).has_trap_page(),
        ensures
            final(self).wf(),
            final(self).has_trap_page(),
            final(self).page_table == old(self).page_table,
            final(self).areas@.len() == old(self).areas@.len(),
            forall|k: int|
                0 <= k < final(self).areas@.len() - 1
                    ==> #[trigger] final(self).areas@[k] == old(self).areas@[k],
            final(self).trap_frame().ppn == old(self).trap_frame().ppn,
            final(self).trap_frame().words@.subrange(0, TRAP_CONTEXT_WORDS as int) == cx.words(),
            forall|p: u64| #[trigger] final(self).owns_data(p) == old(self).owns_data(p),
            forall|p: u64| #[trigger] final(self).owns(p) == old(self).owns(p),
    {
        let last = self.areas.len() - 1;
        proof {
            assert(self.area_ok(last as int));
        }
        let ghost before = self.areas@[last as int];
        cx.store(&mut self.areas[last].data_frames[0]);
        proof {
            let after = self.areas@[last as int];
            assert(after.data_frames@ =~= before.data_frames@.update(0, after.data_frames@[0]));
            assert(after.data_frames@[0].words@.subrange(0, TRAP_CONTEXT_WORDS as int)
                =~= cx.words());
            assert forall|v: u64|
                after.vpn_range.spec_contains(VirtPageNum(v)) implies after.entry_of(v)
                == before.entry_of(v) by {}
            assert forall|i: int| 0 <= i < self.areas@.len() implies #[trigger] self.area_ok(
                i,
            ) by {
                assert(old(self).area_ok(i));
                if i == last {
                    assert forall|j: int| 0 <= j < after.data_frames@.len() implies (
                    #[trigger] after.data_frames@[j]).wf() && after.data_frames@[j].ppn.wf() by {
                        assert(before.data_frames@[j].wf());
                    }
                }
            }
            assert forall|i: int, j: int|
                0 <= i < self.areas@.len() && 0 <= j < self.areas@.len() && i != j implies
                    #[trigger]
                self.areas_apart(i, j) by {
                assert(old(self).areas_apart(i, j));
            }
            assert forall|p: u64| #[trigger] self.owns_data(p) == old(self).owns_data(p) by {
                if self.owns_data(p) {
                    let (i, j) = choose|i: int, j: int|
                        0 <= i < self.areas@.len() && 0 <= j < self.areas@[i].data_frames@.len()
                            && (#[trigger] self.areas@[i].data_frames@[j]).ppn.0 == p;
                    if i == last {
                        assert(j == 0);
                    }
                    assert(old(self).areas@[i].data_frames@[j].ppn.0 == p);
                }
                if old(self).owns_data(p) {
                    let (i, j) = choose|i: int, j: int|
                        0 <= i < old(self).areas@.len()
                            && 0 <= j < old(self).areas@[i].data_frames@.len()
                                && (#[trigger] old(self).areas@[i].data_frames@[j]).ppn.0 == p;
                    if i == last {
                        assert(j == 0);
                    }
                    assert(self.areas@[i].data_frames@[j].ppn.0 == p);
                }
            }
        }
    }

    /// Reads the page of the trap context.
    pub fn load_trap_context(&self) -> (cx: TrapContext)
        requires
            self.wf(),
            self.has_trap_page(),
        ensures
            cx.words() == self.trap_frame().words@.subrange(0, TRAP_CONTEXT_WORDS as int),
    {
        let last = self.areas.len() - 1;
        proof {
            assert(self.area_ok(last as int));
        }
        TrapContext::load(&self.areas[last].data_frames[0])
    }

    /// Area `k` is framed and holds the page `vpn`.
    pub open spec fn frames_page(&self, k: int, vpn: u64) -> bool {
        &&& 0 <= k < self.areas@.len()
        &&& self.areas@[k].map_type is Framed
        &&& self.areas@[k].vpn_range.spec_contains(VirtPageNum(vpn))
    }

    /// The frame that backs the page `vpn`, if the page belongs to a framed
    /// area.
    pub open spec fn frame_at(&self, vpn: u64) -> Option<FrameTracker> {
        if exists|k: int| self.frames_page(k, vpn) {
            let k = choose|k: int| self.frames_page(k, vpn);
            Some(self.areas@[k].data_frames@[vpn - self.areas@[k].vpn_range.start.0])
        } else {
            None
        }
    }

    /// The byte at the virtual address `va`, for an address in a framed
    /// area.
    pub open spec fn user_byte(&self, va: int) -> u8 {
        self.frame_at((va / (PAGE_SIZE as int)) as u64)->0.byte(va % (PAGE_SIZE as int))
    }

    /// Every address from `ptr` up to, not including, `ptr + len` lies
    /// within the address width and in a framed area.
    pub open spec fn readable(&self, ptr: u64, len: usize) -> bool {
        &&& ptr + len <= VA_LIMIT
        &&& forall|vpn: u64|
            ptr / PAGE_SIZE <= vpn < ptr / PAGE_SIZE + chunk_count(ptr, len) ==> (
            #[trigger] self.frame_at(vpn)) is Some
    }

    /// Finds the framed area that holds the page `vpn`, and the index of
    /// the frame of the page in it.
    pub fn find_frame(&self, vpn: VirtPageNum) -> (r: Option<(usize, usize)>)
        requires
            self.wf(),
        ensures
            r is Some <==> self.frame_at(vpn.0) is Some,
            r matches Some((k, j)) ==> {
                &&& self.frames_page(k as int, vpn.0)
                &&& j == vpn.0 - self.areas@[k as int].vpn_range.start.0
                &&& j < self.areas@[k as int].data_frames@.len()
                &&& self.frame_at(vpn.0) == Some(self.areas@[k as int].data_frames@[j as int])
            },
    {
        let mut k: usize = 0;
        while k < self.areas.len()
            invariant
                self.wf(),
                k <= self.areas@.len(),
                forall|i: int| 0 <= i < k ==> !self.frames_page(i, vpn.0),
            decreases self.areas@.len() - k,
        {
            let area = &self.areas[k];
            let framed = match area.map_type {
                MapType::Framed => true,
                MapType::Identical => false,
            };
            if framed && area.vpn_range.contains(vpn) {
                proof {
                    assert(self.frames_page(k as int, vpn.0));
                    let chosen = choose|i: int| self.frames_page(i, vpn.0);
                    if chosen != k {
                        assert(self.areas_apart(chosen, k as int));
                    }
                    assert(self.area_ok(k as int));
                }
                return Some((k, (vpn.0 - area.vpn_range.start.0) as usize));
            }
            k = k + 1;
        }
        None
    }

    /// Gives the frames of `frames` back to `pool`, last first.
    fn release_frames(pool: &mut StackFrameAllocator, frames: Vec<FrameTracker>)
        requires
            old(pool).wf(),
        ensures
            final(pool).wf(),
            final(pool)@.same_bounds(old(pool)@),
            final(pool)@ == released(old(pool)@, frames@),
    {
        let mut frames = frames;
        let ghost all = frames@;
        proof {
            law_released_frames_are_free(old(pool)@, all, 0);
        }
        while frames.len() > 0
            invariant
                pool.wf(),
                pool@.same_bounds(old(pool)@),
                released(pool@, frames@) == released(old(pool)@, all),
            decreases frames@.len(),
        {
            let ghost before = frames@;
            let frame = frames.pop().unwrap();
            assert(frames@ == before.drop_last());
            let _ = frame_dealloc(pool, frame);
        }
    }
}

/// The number of the trampoline page.
pub open spec fn trampoline_vpn() -> VirtPageNum {
    VirtPageNum((VPN_LIMIT - 1) as u64)
}

/// The number of the trampoline page: the page of the trampoline address.
pub fn trampoline_page() -> (vpn: VirtPageNum)
    ensures
        vpn == trampoline_vpn(),
        vpn.wf(),
        vpn.0 == (TRAMPOLINE % VA_LIMIT) / PAGE_SIZE,
{
    assert((0xffff_ffff_ffff_f000u64 % 0x80_0000_0000u64) / 4096u64 == 0x7ff_ffffu64)
        by (bit_vector);
    VirtPageNum(VPN_LIMIT - 1)
}

/// The pool after the frames of the areas of `areas` were given back, last
/// area first.
pub open spec fn released_areas(pool: FramePool, areas: Seq<MapArea>) -> FramePool
    decreases areas.len(),
{
    if areas.len() == 0 {
        pool
    } else {
        released_areas(released(pool, areas.last().data_frames@), areas.drop_last())
    }
}

/// Giving frames back keeps the pool well formed. Afterwards none of them
/// is handed out, and every other page number is handed out exactly when it
/// was before.
pub proof fn law_released_frames_are_free(pool: FramePool, frames: Seq<FrameTracker>, ppn: u64)
    requires
        pool.wf(),
    ensures
        released(pool, frames).wf(),
        released(pool, frames).same_range(pool),
        released(pool, frames).is_allocated(ppn) == (pool.is_allocated(ppn) && forall|j: int|
            0 <= j < frames.len() ==> (#[trigger] frames[j]).ppn.0 != ppn),
    decreases frames.len(),
{
    if frames.len() > 0 {
        let last = frames.last().ppn.0;
        law_dealloc_frees(pool, last);
        law_released_frames_are_free(pool.dealloc(last), frames.drop_last(), ppn);
        if pool.is_allocated(ppn) && forall|j: int|
            0 <= j < frames.len() ==> (#[trigger] frames[j]).ppn.0 != ppn {
            assert forall|j: int| 0 <= j < frames.drop_last().len() implies (
            #[trigger] frames.drop_last()[j]).ppn.0 != ppn by {
                assert(frames[j].ppn.0 != ppn);
            }
        }
        if released(pool, frames).is_allocated(ppn) {
            assert forall|j: int| 0 <= j < frames.len() implies (#[trigger] frames[j]).ppn.0
                != ppn by {
                if j < frames.len() - 1 {
                    assert(frames.drop_last()[j].ppn.0 != ppn);
                }
            }
        }
    }
}

/// Giving the frames of a list of areas back keeps the pool well formed.
/// Afterwards no frame of an area is handed out, and every other page
/// number is handed out exactly when it was before.
pub proof fn law_released_areas_are_free(pool: FramePool, areas: Seq<MapArea>, ppn: u64)
    requires
        pool.wf(),
    ensures
        released_areas(pool, areas).wf(),
        released_areas(pool, areas).same_range(pool),
        released_areas(pool, areas).is_allocated(ppn) == (pool.is_allocated(ppn) && forall|
            i: int,
            j: int,
        |
            0 <= i < areas.len() && 0 <= j < areas[i].data_frames@.len() ==> (
            #[trigger] areas[i].data_frames@[j]).ppn.0 != ppn),
    decreases areas.len(),
{
    if areas.len() > 0 {
        let last = areas.last().data_frames@;
        law_released_frames_are_free(pool, last, ppn);
        law_released_areas_are_free(released(pool, last), areas.drop_last(), ppn);
        let rest = areas.drop_last();
        if pool.is_allocated(ppn) && forall|i: int, j: int|
            0 <= i < areas.len() && 0 <= j < areas[i].data_frames@.len() ==> (
            #[trigger] areas[i].data_frames@[j]).ppn.0 != ppn {
            assert forall|j: int| 0 <= j < last.len() implies (#[trigger] last[j]).ppn.0
                != ppn by {
                assert(areas[areas.len() - 1].data_frames@[j].ppn.0 != ppn);
            }
            assert forall|i: int, j: int|
                0 <= i < rest.len() && 0 <= j < rest[i].data_frames@.len() implies (
            #[trigger] rest[i].data_frames@[j]).ppn.0 != ppn by {
                assert(areas[i].data_frames@[j].ppn.0 != ppn);
            }
        }
        if released_areas(pool, areas).is_allocated(ppn) {
            assert forall|i: int, j: int|
                0 <= i < areas.len() && 0 <= j < areas[i].data_frames@.len() implies (
            #[trigger] areas[i].data_frames@[j]).ppn.0 != ppn by {
                if i < areas.len() - 1 {
                    assert(rest[i].data_frames@[j].ppn.0 != ppn);
                } else {
                    assert(last[j].ppn.0 != ppn);
                }
            }
        }
    }
}

/// Copies `data` to the start of the pages of `frames`, which are zero.
fn fill_frames(frames: &mut Vec<FrameTracker>, data: &[u8])
    requires
        data@.len() <= old(frames)@.len() * PAGE_SIZE,
        forall|j: int|
            0 <= j < old(frames)@.len() ==> (#[trigger] old(frames)@[j]).wf()
                && old(frames)@[j].ppn.wf(),
        forall|off: int|
            0 <= off < old(frames)@.len() * PAGE_SIZE ==> #[trigger] frames_byte(
                old(frames)@,
                off,
            ) == 0,
    ensures
        final(frames)@.len() == old(frames)@.len(),
        forall|j: int|
            0 <= j < final(frames)@.len() ==> (#[trigger] final(frames)@[j]).wf()
                && final(frames)@[j].ppn == old(frames)@[j].ppn,
        forall|off: int|
            0 <= off < final(frames)@.len() * PAGE_SIZE ==> #[trigger] frames_byte(
                final(frames)@,
                off,
            ) == if off < data@.len() {
                data@[off]
            } else {
                0u8
            },
{
    let ghost n = frames@.len() as int;
    let mut i: usize = 0;
    while i < data.len()
        invariant
            i <= data@.len() <= n * PAGE_SIZE,
            frames@.len() == n,
            n == old(frames)@.len(),
            forall|j: int|
                0 <= j < n ==> (#[trigger] frames@[j]).wf()
                    && frames@[j].ppn == old(frames)@[j].ppn,
            forall|off: int|
                0 <= off < n * PAGE_SIZE ==> #[trigger] frames_byte(frames@, off) == if off < i {
                    data@[off]
                } else {
                    0u8
                },
        decreases data@.len() - i,
    {
        let page: usize = i / 4096;
        let ghost before = frames@;
        assert(page < n);
        frames[page].write_byte(i % 4096, data[i]);
        proof {
            assert forall|off: int| 0 <= off < n * PAGE_SIZE implies #[trigger] frames_byte(
                frames@,
                off,
            ) == if off < i + 1 {
                data@[off]
            } else {
                0u8
            } by {
                assert(frames_byte(before, off) == if off < i {
                    data@[off]
                } else {
                    0u8
                });
                let p = off / (PAGE_SIZE as int);
                if p == page {
                    assert(frames@[p].bytes()[off % (PAGE_SIZE as int)] == frames@[p].byte(
                        off % (PAGE_SIZE as int),
                    ));
                    assert(before[p].bytes()[off % (PAGE_SIZE as int)] == before[p].byte(
                        off % (PAGE_SIZE as int),
                    ));
                } else {
                    assert(frames@[p] == before[p]);
                }
            }
            assert forall|j: int| 0 <= j < n implies (#[trigger] frames@[j]).wf()
                && frames@[j].ppn == old(frames)@[j].ppn by {
                if j != page {
                    assert(frames@[j] == before[j]);
                } else {
                    assert(before[j].wf());
                }
            }
        }
        i = i + 1;
    }
}

/// Writes the entries of the pages of `area`, none of which is mapped and
/// whose tables exist.
fn map_pages(page_table: &mut PageTable, area: &MapArea)
    requires
        old(page_table).wf(),
        area.wf(),
        forall|u: u64|
            area.vpn_range.spec_contains(VirtPageNum(u))
                ==> #[trigger] old(page_table).tables_missing(VirtPageNum(u)) == 0,
    ensures
        final(page_table).wf(),
        final(page_table).root_ppn() == old(page_table).root_ppn(),
        final(page_table)@ == old(page_table)@.union_prefer_right(area.entries()),
        final(page_table).same_tables(old(page_table)),
        forall|p: u64| #[trigger]
            final(page_table).ppns().contains(p) == old(page_table).ppns().contains(p),
{
    let start: u64 = area.vpn_range.start.0;
    let end: u64 = area.vpn_range.end.0;
    let mut v: u64 = start;
    proof {
        assert(page_table@ =~= old(page_table)@.union_prefer_right(area.entries_upto(v)));
    }
    while v < end
        invariant
            page_table.wf(),
            area.wf(),
            area.vpn_range.start.0 == start,
            area.vpn_range.end.0 == end,
            start <= v <= end <= VPN_LIMIT,
            page_table@ == old(page_table)@.union_prefer_right(area.entries_upto(v)),
            page_table.root_ppn() == old(page_table).root_ppn(),
            page_table.same_tables(old(page_table)),
            forall|p: u64| #[trigger]
                page_table.ppns().contains(p) == old(page_table).ppns().contains(p),
            forall|u: u64|
                start <= u < end ==> #[trigger] page_table.tables_missing(VirtPageNum(u)) == 0,
        decreases end - v,
    {
        let ppn = match area.map_type {
            MapType::Identical => PhysPageNum(v),
            MapType::Framed => area.data_frames[(v - start) as usize].ppn,
        };
        let entry = PageTableEntry::new(ppn, PTEFlags::from_bits(area.map_perm.bits | FLAG_V));
        proof {
            lemma_flag_bits(area.map_perm.bits, FLAG_V);
            assert(page_table.tables_missing(VirtPageNum(v)) == 0);
        }
        let ghost before = *page_table;
        page_table.set_entry(VirtPageNum(v), entry);
        proof {
            assert(entry == area.entry_of(v));
            assert(page_table@ =~= old(page_table)@.union_prefer_right(
                area.entries_upto((v + 1) as u64),
            ));
            assert forall|u: u64| start <= u < end implies #[trigger] page_table.tables_missing(
                VirtPageNum(u),
            ) == 0 by {
                assert(before.tables_missing(VirtPageNum(u)) == 0);
            }
            assert forall|n: int| #[trigger]
                page_table.has_leaf(n) == old(page_table).has_leaf(n) by {
                assert(before.has_leaf(n) == old(page_table).has_leaf(n));
            }
            assert forall|m: int| #[trigger]
                page_table.has_mid(m) == old(page_table).has_mid(m) by {
                assert(before.has_mid(m) == old(page_table).has_mid(m));
            }
            assert forall|p: u64| #[trigger]
                page_table.ppns().contains(p) == old(page_table).ppns().contains(p) by {
                assert(before.ppns().contains(p) == old(page_table).ppns().contains(p));
            }
        }
        v = v + 1;
    }
}

/// Byte `offset` of the pages of `frames` laid end to end.
pub open spec fn frames_byte(frames: Seq<FrameTracker>, offset: int) -> u8 {
    frames[offset / (PAGE_SIZE as int)].byte(offset % (PAGE_SIZE as int))
}

/// An address space that is sound in a pool stays sound when it grows by
/// what the pool hands out: first `tables` frames for tables, then `pages`
/// frames for areas.
pub proof fn lemma_growth_keeps_sound(
    before: MemorySet,
    after: MemorySet,
    pool: FramePool,
    tables: nat,
    pages: nat,
)
    requires
        pool.wf(),
        forall|p: u64| #[trigger]
            after.page_table.ppns().contains(p) == (before.page_table.ppns().contains(p)
                || pool.hands_out(tables, p)),
        forall|p: u64| #[trigger]
            after.owns_data(p) == (before.owns_data(p) || pool.allocate_n(tables).hands_out(
                pages,
                p,
            )),
    ensures
        before.sound_in(pool) ==> after.sound_in(pool.allocate_n(tables + pages)),
        before.sound_in(pool) ==> after.sound_in(pool.allocate_n(tables)) || pages > 0,
{
    if before.sound_in(pool) {
        lemma_allocate_n_adds_up(pool, tables, pages);
        lemma_allocate_n_adds_up(pool, tables, 0);
        let grown = pool.allocate_n(tables + pages);
        assert forall|p: u64| #[trigger] after.owns(p) implies grown.is_allocated(p) by {
            lemma_allocated_after(pool, tables + pages, p);
            lemma_hands_out_in_turn(pool, tables, pages, p);
            assert(before.owns(p) ==> pool.is_allocated(p));
        }
        assert forall|p: u64|
            !(#[trigger] after.page_table.ppns().contains(p) && after.owns_data(p)) by {
            lemma_allocated_after(pool, tables, p);
            lemma_allocated_after(pool.allocate_n(tables), pages, p);
            assert(before.owns(p) ==> pool.is_allocated(p));
            assert(!(before.page_table.ppns().contains(p) && before.owns_data(p)));
        }
        if pages == 0 {
            assert forall|p: u64| !pool.allocate_n(tables).hands_out(0, p) by {
                lemma_hands_out_first(pool.allocate_n(tables), p);
            }
        }
    }
}

/// An address space that is sound in a pool is sound in the pool after
/// further allocations.
pub proof fn lemma_sound_after_more(space: MemorySet, pool: FramePool, n: nat)
    requires
        pool.wf(),
        space.sound_in(pool),
    ensures
        space.sound_in(pool.allocate_n(n)),
{
    assert forall|p: u64| #[trigger] space.owns(p) implies pool.allocate_n(n).is_allocated(p) by {
        lemma_allocated_after(pool, n, p);
    }
}

/// An address space that is sound in a pool is sound in the pool after
/// frames were given back of which it owns none.
pub proof fn lemma_sound_after_release(space: MemorySet, before: FramePool, after: FramePool)
    requires
        space.sound_in(before),
        forall|p: u64| #[trigger] space.owns(p) ==> after.is_allocated(p) == before.is_allocated(p),
    ensures
        space.sound_in(after),
{
}

/// Two address spaces with the same areas hold the same data frames.
proof fn lemma_same_areas_same_data(before: MemorySet, after: MemorySet, ppn: u64)
    requires
        after.areas@ == before.areas@,
    ensures
        after.owns_data(ppn) == before.owns_data(ppn),
{
    if after.owns_data(ppn) {
        let (i, j) = choose|i: int, j: int|
            0 <= i < after.areas@.len() && 0 <= j < after.areas@[i].data_frames@.len() && (
            #[trigger] after.areas@[i].data_frames@[j]).ppn.0 == ppn;
        assert(before.areas@[i].data_frames@[j].ppn.0 == ppn);
    }
    if before.owns_data(ppn) {
        let (i, j) = choose|i: int, j: int|
            0 <= i < before.areas@.len() && 0 <= j < before.areas@[i].data_frames@.len() && (
            #[trigger] before.areas@[i].data_frames@[j]).ppn.0 == ppn;
        assert(after.areas@[i].data_frames@[j].ppn.0 == ppn);
    }
}

/// An address space whose page table changed without a change to any
/// mapping, and whose areas are the same, is still well formed.
proof fn lemma_same_mappings_keep_wf(before: MemorySet, after: MemorySet)
    requires
        before.wf(),
        after.page_table.wf(),
        after.page_table@ == before.page_table@,
        after.areas == before.areas,
    ensures
        after.wf(),
{
    assert forall|i: int| 0 <= i < after.areas@.len() implies #[trigger] after.area_ok(i) by {
        assert(before.area_ok(i));
    }
    assert forall|i: int, j: int|
        0 <= i < after.areas@.len() && 0 <= j < after.areas@.len() && i != j implies #[trigger]
        after.areas_apart(i, j) by {
        assert(before.areas_apart(i, j));
    }
}

/// The pool after the frames of `frames` were given back, last first.
pub open spec fn released(pool: FramePool, frames: Seq<FrameTracker>) -> FramePool
    decreases frames.len(),
{
    if frames.len() == 0 {
        pool
    } else {
        released(pool.dealloc(frames.last().ppn.0), frames.drop_last())
    }
}

/// The addresses that bound the sections of the kernel image and the
/// physical memory behind it.
#[derive(Clone, Copy, Debug, PartialEq, Eq, Structural)]
pub struct KernelLayout {
    pub stext: u64,
    pub etext: u64,
    pub srodata: u64,
    pub erodata: u64,
    pub sdata: u64,
    pub edata: u64,
    pub sbss: u64,
    pub ebss: u64,
    pub ekernel: u64,
    pub memory_end: u64,
}

impl KernelLayout {
    /// Every address is within the virtual address width.
    pub open spec fn wf(&self) -> bool {
        &&& self.stext < VA_LIMIT
        &&& self.etext < VA_LIMIT
        &&& self.srodata < VA_LIMIT
        &&& self.erodata < VA_LIMIT
        &&& self.sdata < VA_LIMIT
        &&& self.edata < VA_LIMIT
        &&& self.sbss < VA_LIMIT
        &&& self.ebss < VA_LIMIT
        &&& self.ekernel < VA_LIMIT
        &&& self.memory_end < VA_LIMIT
    }
}

/// The pages of the addresses from `start` up to, not including, `end`;
/// none when `end` is not above `start`.
pub open spec fn pages_of(start: u64, end: u64) -> VPNRange {
    VPNRange {
        start: VirtPageNum(start / PAGE_SIZE),
        end: VirtPageNum(
            if start < end {
                ((end + PAGE_SIZE - 1) / (PAGE_SIZE as int)) as u64
            } else {
                start / PAGE_SIZE
            },
        ),
    }
}

/// The pages of the boot stack of the hart `hart`.
pub open spec fn hart_stack_range(hart: usize) -> VPNRange {
    pages_of(spec_hart_stack_position(hart).0, spec_hart_stack_position(hart).1)
}

/// The pages of the kernel stack of the process `pid`.
pub open spec fn kernel_stack_range(pid: usize) -> VPNRange {
    pages_of(spec_kernel_stack_position(pid).0, spec_kernel_stack_position(pid).1)
}

/// Why a program image could not be loaded.
#[derive(Clone, Copy, Debug, PartialEq, Eq, Structural)]
pub enum LoadError {
    /// The image is malformed.
    Image(ElfError),
    /// The address space could not be built.
    Space(MapError),
}

/// The permission of the area of a segment with the flags `flags`: use
/// from user mode, and what the flags allow.
pub open spec fn segment_permission(flags: u32) -> MapPermission {
    MapPermission {
        bits: PERM_U | (if flags & PF_R != 0 {
            PERM_R
        } else {
            0
        }) | (if flags & PF_W != 0 {
            PERM_W
        } else {
            0
        }) | (if flags & PF_X != 0 {
            PERM_X
        } else {
            0
        }),
    }
}

/// The permission of the area of a segment with the flags `flags`.
#[verifier::when_used_as_spec(segment_permission)]
pub fn permission_of(flags: u32) -> (r: MapPermission)
    ensures
        r == segment_permission(flags),
{
    let read: u8 = if flags & PF_R != 0 {
        PERM_R
    } else {
        0
    };
    let write: u8 = if flags & PF_W != 0 {
        PERM_W
    } else {
        0
    };
    let execute: u8 = if flags & PF_X != 0 {
        PERM_X
    } else {
        0
    };
    MapPermission { bits: PERM_U | read | write | execute }
}

/// The pages of the segment `ph`: from the page of its first address up to
/// the page of its last; none if it is empty.
pub open spec fn segment_range(ph: ProgramHeader) -> VPNRange {
    VPNRange {
        start: VirtPageNum(ph.vaddr / PAGE_SIZE),
        end: VirtPageNum(
            if ph.memsz > 0 {
                ((ph.vaddr + ph.memsz + PAGE_SIZE - 1) / (PAGE_SIZE as int)) as u64
            } else {
                ph.vaddr / PAGE_SIZE
            },
        ),
    }
}

/// The area `area` is framed, covers `range` with the permission bits
/// `bits`, and is filled with zeros.
pub open spec fn holds_zeros(area: MapArea, range: VPNRange, bits: u8) -> bool {
    &&& area.wf()
    &&& area.vpn_range == range
    &&& area.map_type is Framed
    &&& area.map_perm.bits == bits
    &&& forall|off: int| 0 <= off < area.size() ==> #[trigger] area.byte(off) == 0
}

/// One past the last page of the segments `segments`; zero without
/// segments.
pub open spec fn image_end(segments: Seq<ProgramHeader>) -> u64
    decreases segments.len(),
{
    if segments.len() == 0 {
        0
    } else {
        let rest = image_end(segments.drop_last());
        let end = segment_range(segments.last()).end.0;
        if end > rest {
            end
        } else {
            rest
        }
    }
}

/// The segments to load of a well-formed image.
pub open spec fn program_segments(bytes: Seq<u8>) -> Seq<ProgramHeader> {
    load_segments(bytes, spec_validate(bytes)->Ok_0, spec_validate(bytes)->Ok_0.phnum as int)
}

/// The entry address of a well-formed image.
pub open spec fn program_entry(bytes: Seq<u8>) -> u64 {
    spec_validate(bytes)->Ok_0.entry
}

/// The address just above the user stack of the program of a well-formed
/// image.
pub open spec fn program_stack_top(bytes: Seq<u8>) -> u64 {
    ((image_end(program_segments(bytes)) + 1) * PAGE_SIZE + USER_STACK_SIZE) as u64
}

/// The pages of the user stack of an image whose segments end at the page
/// `end`: two pages, one guard page above the image.
pub open spec fn user_stack_range(end: u64) -> VPNRange {
    VPNRange { start: VirtPageNum((end + 1) as u64), end: VirtPageNum((end + 3) as u64) }
}

/// The page of the trap context.
pub open spec fn trap_context_range() -> VPNRange {
    VPNRange {
        start: VirtPageNum((VPN_LIMIT - 2) as u64),
        end: VirtPageNum((VPN_LIMIT - 1) as u64),
    }
}

/// The address at which chunk `j` of the bytes from `ptr` on starts: `ptr`
/// for the first chunk, then the start of each following page.
pub open spec fn chunk_start(ptr: u64, j: int) -> int {
    if j == 0 {
        ptr as int
    } else {
        (ptr / PAGE_SIZE + j) * PAGE_SIZE
    }
}

/// The address at which chunk `j` of the `len` bytes from `ptr` on ends:
/// the end of its page, or of the bytes if that comes first.
pub open spec fn chunk_end(ptr: u64, len: usize, j: int) -> int {
    let page_end = (ptr / PAGE_SIZE + j + 1) * PAGE_SIZE;
    if page_end < ptr + len {
        page_end
    } else {
        ptr + len
    }
}

/// The number of pages that the `len` bytes from `ptr` on touch.
pub open spec fn chunk_count(ptr: u64, len: usize) -> int {
    if len == 0 {
        0
    } else {
        (ptr + len - 1) / (PAGE_SIZE as int) - ptr / PAGE_SIZE + 1
    }
}

/// Reads `len` bytes at the virtual address `ptr` of the address space
/// `space`, as one chunk for each page they touch, in order: each chunk
/// holds the bytes of one frame.
///
/// `None` when not every address of the range lies in a framed area.
#[verifier::loop_isolation(false)]
pub fn translated_byte_buffer(space: &MemorySet, ptr: u64, len: usize) -> (r: Option<
    Vec<Vec<u8>>,
>)
    requires
        space.wf(),
    ensures
        r is Some <==> space.readable(ptr, len),
        r matches Some(chunks) ==> {
            &&& chunks@.len() == chunk_count(ptr, len)
            &&& forall|j: int|
                0 <= j < chunks@.len() ==> (#[trigger] chunks@[j])@ == Seq::new(
                    (chunk_end(ptr, len, j) - chunk_start(ptr, j)) as nat,
                    |i: int| space.user_byte(chunk_start(ptr, j) + i),
                )
        },
{
    if ptr > VA_LIMIT || len as u64 > VA_LIMIT - ptr {
        return None;
    }
    let end: u64 = ptr + len as u64;
    let first: u64 = ptr / PAGE_SIZE;
    let mut chunks: Vec<Vec<u8>> = Vec::new();
    let mut start: u64 = ptr;
    while start < end
        invariant
            ptr <= start <= end,
            end == ptr + len,
            start == chunk_start(ptr, chunks@.len() as int) || start == end,
            start < end ==> start == chunk_start(ptr, chunks@.len() as int),
            start == end ==> chunks@.len() == chunk_count(ptr, len),
            start < end ==> chunks@.len() < chunk_count(ptr, len),
            forall|vpn: u64|
                first <= vpn < first + chunks@.len() ==> (#[trigger] space.frame_at(vpn)) is Some,
            forall|j: int|
                0 <= j < chunks@.len() ==> (#[trigger] chunks@[j])@ == Seq::new(
                    (chunk_end(ptr, len, j) - chunk_start(ptr, j)) as nat,
                    |i: int| space.user_byte(chunk_start(ptr, j) + i),
                ),
        decreases end - start,
    {
        let vpn: u64 = start / PAGE_SIZE;
        let ghost j = chunks@.len() as int;
        proof {
            assert(vpn == first + j);
        }
        let (k, f) = match space.find_frame(VirtPageNum(vpn)) {
            Some(found) => found,
            None => {
                proof {
                    assert(space.frame_at(vpn) is None);
                }
                return None;
            },
        };
        let page_end: u64 = (vpn + 1) * PAGE_SIZE;
        let stop: u64 = if page_end < end {
            page_end
        } else {
            end
        };
        proof {
            assert(space.area_ok(k as int));
            assert(stop == chunk_end(ptr, len, j));
        }
        let frame = &space.areas[k].data_frames[f];
        let mut chunk: Vec<u8> = Vec::new();
        let mut at: u64 = start;
        while at < stop
            invariant
                start <= at <= stop <= page_end,
                vpn * PAGE_SIZE <= start,
                frame.wf(),
                chunk@ == Seq::new((at - start) as nat, |i: int| space.user_byte(start + i)),
            decreases stop - at,
        {
            let b = frame.read_byte((at - vpn * PAGE_SIZE) as usize);
            proof {
                assert(at / PAGE_SIZE == vpn);
                assert(space.user_byte(at as int) == b);
            }
            chunk.push(b);
            proof {
                assert(chunk@ =~= Seq::new(
                    (at + 1 - start) as nat,
                    |i: int| space.user_byte(start + i),
                ));
            }
            at = at + 1;
        }
        let ghost before = chunks@;
        chunks.push(chunk);
        proof {
            assert forall|i: int| 0 <= i < chunks@.len() implies (#[trigger] chunks@[i])@
                == Seq::new(
                (chunk_end(ptr, len, i) - chunk_start(ptr, i)) as nat,
                |x: int| space.user_byte(chunk_start(ptr, i) + x),
            ) by {
                if i < j {
                    assert(chunks@[i] == before[i]);
                }
            }
            assert forall|w: u64| first <= w < first + chunks@.len() implies (
            #[trigger] space.frame_at(w)) is Some by {
                if w >= first + j {
                    assert(w == vpn);
                }
            }
        }
        start = stop;
    }
    Some(chunks)
}

/// What the page table says of a page of a framed area is the frame that
/// the area holds for it: the page is mapped, to the physical page of that
/// frame, with the permission of the area. So the bytes read through the
/// translation of an address are the bytes of that frame.
pub proof fn law_translation_reaches_the_frame(space: MemorySet, k: int, vpn: u64)
    requires
        space.wf(),
        space.frames_page(k, vpn),
    ensures
        space.page_table@.dom().contains(vpn),
        space.frame_at(vpn) == Some(
            space.areas@[k].data_frames@[vpn - space.areas@[k].vpn_range.start.0],
        ),
        space.page_table@[vpn].spec_ppn() == space.frame_at(vpn)->0.ppn,
        space.page_table@[vpn].spec_flags() == space.areas@[k].flags(),
        space.page_table@[vpn].spec_is_valid(),
        forall|offset: int|
            0 <= offset < PAGE_SIZE ==> #[trigger] space.user_byte(vpn * PAGE_SIZE + offset)
                == space.frame_at(vpn)->0.byte(offset),
{
    assert(space.area_ok(k));
    let chosen = choose|i: int| space.frames_page(i, vpn);
    if chosen != k {
        assert(space.areas_apart(chosen, k));
    }
    let area = space.areas@[k];
    let frame = area.data_frames@[vpn - area.vpn_range.start.0];
    assert(frame.ppn.wf());
    assert(area.mapped_in(space.page_table@));
    assert(space.page_table@.dom().contains(vpn));
    assert(space.page_table@[vpn] == area.entry_of(vpn));
    assert(area.ppn_of(vpn) == frame.ppn);
    lemma_entry_round_trip(frame.ppn, area.flags());
    lemma_flag_bits(area.map_perm.bits, FLAG_V);
    assert forall|offset: int| 0 <= offset < PAGE_SIZE implies #[trigger] space.user_byte(
        vpn * PAGE_SIZE + offset,
    ) == space.frame_at(vpn)->0.byte(offset) by {
        assert((vpn * PAGE_SIZE + offset) / (PAGE_SIZE as int) == vpn);
        assert((vpn * PAGE_SIZE + offset) % (PAGE_SIZE as int) == offset);
    }
}

/// No page belongs to two areas of an address space.
pub proof fn law_areas_are_disjoint(space: MemorySet, i: int, j: int, vpn: VirtPageNum)
    requires
        space.wf(),
        0 <= i < space.areas@.len(),
        0 <= j < space.areas@.len(),
        i != j,
    ensures
        !(space.areas@[i].vpn_range.spec_contains(vpn) && space.areas@[j].vpn_range.spec_contains(
            vpn,
        )),
        !space.areas@[i].vpn_range.spec_overlaps(&space.areas@[j].vpn_range),
{
    assert(space.areas_apart(i, j));
    assert forall|w: VirtPageNum|
        !(space.areas@[i].vpn_range.spec_contains(w) && space.areas@[j].vpn_range.spec_contains(
            w,
        )) by {
        assert(w == VirtPageNum(w.0));
        assert(!(space.areas@[i].vpn_range.spec_contains(VirtPageNum(w.0))
            && space.areas@[j].vpn_range.spec_contains(VirtPageNum(w.0))));
    }
}

impl MemorySet {
    /// The address space has the page table and the areas of `other`, on
    /// the same frames; only what the frames hold may differ.
    pub open spec fn same_layout(&self, other: &MemorySet) -> bool {
        &&& self.page_table == other.page_table
        &&& self.areas@.len() == other.areas@.len()
        &&& forall|k: int| 0 <= k < self.areas@.len() ==> #[trigger] self.same_area(other, k)
    }

    /// Area `k` is area `k` of `other`, on the same frames.
    pub open spec fn same_area(&self, other: &MemorySet, k: int) -> bool {
        &&& self.areas@[k].vpn_range == other.areas@[k].vpn_range
        &&& self.areas@[k].map_type == other.areas@[k].map_type
        &&& self.areas@[k].map_perm == other.areas@[k].map_perm
        &&& self.areas@[k].data_frames@.len() == other.areas@[k].data_frames@.len()
        &&& forall|j: int|
            0 <= j < self.areas@[k].data_frames@.len() ==> (
            #[trigger] self.areas@[k].data_frames@[j]).ppn == other.areas@[k].data_frames@[j].ppn
                && self.areas@[k].data_frames@[j].wf()
    }
}

/// An address space with the layout of a well-formed one is well formed,
/// backs the same pages with frames, and owns the same frames.
pub proof fn lemma_same_layout(before: MemorySet, after: MemorySet)
    requires
        before.wf(),
        after.same_layout(&before),
    ensures
        after.wf(),
        forall|vpn: u64| (#[trigger] after.frame_at(vpn)) is Some == before.frame_at(vpn) is Some,
        forall|k: int, vpn: u64| #[trigger]
            after.frames_page(k, vpn) == before.frames_page(k, vpn),
        forall|k: int, vpn: u64| #[trigger]
            after.frames_page(k, vpn) ==> after.frame_at(vpn) == Some(
                after.areas@[k].data_frames@[vpn - after.areas@[k].vpn_range.start.0],
            ),
        forall|p: u64| #[trigger] after.owns(p) == before.owns(p),
{
    assert forall|i: int| 0 <= i < after.areas@.len() implies #[trigger] after.area_ok(i) by {
        assert(before.area_ok(i));
        assert(after.same_area(&before, i));
        let now = after.areas@[i];
        let then = before.areas@[i];
        assert forall|j: int| 0 <= j < now.data_frames@.len() implies (
        #[trigger] now.data_frames@[j]).wf() && now.data_frames@[j].ppn.wf() by {
            assert(now.data_frames@[j].ppn == then.data_frames@[j].ppn);
            assert(then.data_frames@[j].wf() && then.data_frames@[j].ppn.wf());
        }
        assert forall|v: u64| now.vpn_range.spec_contains(VirtPageNum(v)) implies #[trigger]
            after.page_table@.dom().contains(v) && after.page_table@[v] == now.entry_of(v) by {
            assert(before.page_table@.dom().contains(v));
            if now.map_type is Framed {
                let j = v - now.vpn_range.start.0;
                assert(now.data_frames@[j].ppn == then.data_frames@[j].ppn);
            }
            assert(then.entry_of(v) == now.entry_of(v));
        }
        assert(then.wf());
        assert(now.vpn_range.wf());
        assert(now.wf());
        assert(now.mapped_in(after.page_table@));
    }
    assert forall|i: int, j: int|
        0 <= i < after.areas@.len() && 0 <= j < after.areas@.len() && i != j implies #[trigger]
        after.areas_apart(i, j) by {
        assert(before.areas_apart(i, j));
        assert(after.same_area(&before, i));
        assert(after.same_area(&before, j));
    }
    assert forall|k: int, vpn: u64| #[trigger]
        after.frames_page(k, vpn) == before.frames_page(k, vpn) by {
        if 0 <= k < after.areas@.len() {
            assert(after.same_area(&before, k));
        }
    }
    assert forall|k: int, vpn: u64| #[trigger] after.frames_page(k, vpn) implies after.frame_at(
        vpn,
    ) == Some(after.areas@[k].data_frames@[vpn - after.areas@[k].vpn_range.start.0]) by {
        let chosen = choose|i: int| after.frames_page(i, vpn);
        assert(after.frames_page(chosen, vpn));
        if chosen != k {
            assert(after.areas_apart(chosen, k));
        }
    }
    assert forall|vpn: u64| (#[trigger] after.frame_at(vpn)) is Some == before.frame_at(
        vpn,
    ) is Some by {
        if exists|k: int| after.frames_page(k, vpn) {
            let k = choose|k: int| after.frames_page(k, vpn);
            assert(before.frames_page(k, vpn));
        }
        if exists|k: int| before.frames_page(k, vpn) {
            let k = choose|k: int| before.frames_page(k, vpn);
            assert(after.frames_page(k, vpn));
        }
    }
    assert forall|p: u64| #[trigger] after.owns(p) == before.owns(p) by {
        if after.owns_data(p) {
            let (i, j) = choose|i: int, j: int|
                0 <= i < after.areas@.len() && 0 <= j < after.areas@[i].data_frames@.len() && (
                #[trigger] after.areas@[i].data_frames@[j]).ppn.0 == p;
            assert(after.same_area(&before, i));
            assert(before.areas@[i].data_frames@[j].ppn.0 == p);
        }
        if before.owns_data(p) {
            let (i, j) = choose|i: int, j: int|
                0 <= i < before.areas@.len() && 0 <= j < before.areas@[i].data_frames@.len() && (
                #[trigger] before.areas@[i].data_frames@[j]).ppn.0 == p;
            assert(after.same_area(&before, i));
            assert(after.areas@[i].data_frames@[j].ppn.0 == p);
        }
    }
}

/// Whether every address from `ptr` up to, not including, `ptr + len` lies
/// in a framed area of the address space `space`.
pub fn is_readable(space: &MemorySet, ptr: u64, len: usize) -> (r: bool)
    requires
        space.wf(),
    ensures
        r == space.readable(ptr, len),
{
    if ptr > VA_LIMIT || len as u64 > VA_LIMIT - ptr {
        return false;
    }
    if len == 0 {
        return true;
    }
    let first: u64 = ptr / PAGE_SIZE;
    let last: u64 = (ptr + (len as u64 - 1)) / PAGE_SIZE;
    let mut vpn: u64 = first;
    while vpn <= last
        invariant
            space.wf(),
            ptr + len <= VA_LIMIT,
            len > 0,
            first == ptr / PAGE_SIZE,
            last == (ptr + len - 1) / (PAGE_SIZE as int),
            first <= vpn <= last + 1,
            last < VPN_LIMIT,
            forall|w: u64| first <= w < vpn ==> (#[trigger] space.frame_at(w)) is Some,
        decreases last + 1 - vpn,
    {
        if space.find_frame(VirtPageNum(vpn)).is_none() {
            proof {
                assert(space.frame_at(vpn) is None);
                assert(first <= vpn < first + chunk_count(ptr, len));
            }
            return false;
        }
        vpn = vpn + 1;
    }
    true
}

/// Writes `data` at the virtual address `ptr` of the address space
/// `space`, through the frames that back the pages.
///
/// Writes nothing and returns `false` when not every address of the range
/// lies in a framed area.
pub fn copy_to_user(space: &mut MemorySet, ptr: u64, data: &[u8]) -> (ok: bool)
    requires
        old(space).wf(),
    ensures
        final(space).wf(),
        ok == old(space).readable(ptr, data@.len() as usize),
        !ok ==> *final(space) == *old(space),
        final(space).same_layout(old(space)),
        ok ==> forall|va: int|
            0 <= va < VA_LIMIT && old(space).frame_at((va / (PAGE_SIZE as int)) as u64) is Some
                ==> #[trigger] final(space).user_byte(va) == if ptr <= va < ptr + data@.len() {
                data@[va - ptr]
            } else {
                old(space).user_byte(va)
            },
{
    let len = data.len();
    proof {
        assert forall|k: int| 0 <= k < space.areas@.len() implies #[trigger] space.same_area(
            space,
            k,
        ) by {
            assert(space.area_ok(k));
        }
        lemma_same_layout(*space, *space);
    }
    if !is_readable(space, ptr, len) {
        return false;
    }
    let mut i: usize = 0;
    while i < len
        invariant
            i <= len,
            len == data@.len(),
            old(space).wf(),
            old(space).readable(ptr, len),
            space.wf(),
            space.same_layout(old(space)),
            forall|va: int|
                0 <= va < VA_LIMIT && old(space).frame_at((va / (PAGE_SIZE as int)) as u64) is Some
                    ==> #[trigger] space.user_byte(va) == if ptr <= va < ptr + i {
                    data@[va - ptr]
                } else {
                    old(space).user_byte(va)
                },
        decreases len - i,
    {
        let at: u64 = ptr + i as u64;
        let vpn: u64 = at / PAGE_SIZE;
        let ghost before = *space;
        proof {
            lemma_same_layout(*old(space), before);
            assert(ptr / PAGE_SIZE <= vpn < ptr / PAGE_SIZE + chunk_count(ptr, len));
            assert(old(space).frame_at(vpn) is Some);
        }
        match space.find_frame(VirtPageNum(vpn)) {
            Some((k, f)) => {
                proof {
                    assert(space.area_ok(k as int));
                }
                space.areas[k].data_frames[f].write_byte((at % PAGE_SIZE) as usize, data[i]);
                proof {
                    let after = *space;
                    assert forall|a: int| 0 <= a < after.areas@.len() implies
                        #[trigger] after.same_area(
                        old(space),
                        a,
                    ) by {
                        assert(before.same_area(old(space), a));
                        if a == k {
                            assert forall|j: int|
                                0 <= j < after.areas@[a].data_frames@.len() implies (
                            #[trigger] after.areas@[a].data_frames@[j]).ppn
                                == old(space).areas@[a].data_frames@[j].ppn
                                    && after.areas@[a].data_frames@[j].wf() by {
                                assert(before.areas@[a].data_frames@[j].wf());
                            }
                        }
                    }
                    lemma_same_layout(*old(space), after);
                    assert forall|va: int|
                        0 <= va < VA_LIMIT && old(space).frame_at(
                            (va / (PAGE_SIZE as int)) as u64,
                        ) is Some implies #[trigger] after.user_byte(va) == if ptr <= va < ptr + i
                        + 1 {
                        data@[va - ptr]
                    } else {
                        old(space).user_byte(va)
                    } by {
                        let w = (va / (PAGE_SIZE as int)) as u64;
                        let off = va % (PAGE_SIZE as int);
                        assert(before.frame_at(w) is Some);
                        let c = choose|c: int| before.frames_page(c, w);
                        assert(before.frames_page(c, w));
                        assert(after.frames_page(c, w));
                        let g = w - before.areas@[c].vpn_range.start.0;
                        assert(before.area_ok(c));
                        assert(before.frame_at(w) == Some(before.areas@[c].data_frames@[g]));
                        assert(after.frame_at(w) == Some(after.areas@[c].data_frames@[g]));
                        if c == k && g == f {
                            assert(w == vpn) by {
                                assert(before.frames_page(k as int, vpn));
                            }
                            let now = after.areas@[c].data_frames@[g];
                            let then = before.areas@[c].data_frames@[g];
                            assert(now.bytes()[off] == now.byte(off));
                            assert(then.bytes()[off] == then.byte(off));
                        } else if c == k {
                            assert(after.areas@[c].data_frames@[g]
                                == before.areas@[c].data_frames@[g]);
                            assert(w != vpn);
                        } else {
                            assert(after.areas@[c] == before.areas@[c]);
                            if w == vpn {
                                assert(before.areas_apart(c, k as int));
                            }
                        }
                        assert(before.user_byte(va) == if ptr <= va < ptr + i {
                            data@[va - ptr]
                        } else {
                            old(space).user_byte(va)
                        });
                    }
                }
            },
            None => {
                assert(false);
            },
        }
        i = i + 1;
    }
    true
}

/// The first `n` bytes at the virtual address `ptr` lie in framed areas of
/// the address space `space`, and none of them is zero.
pub open spec fn text_at(space: &MemorySet, ptr: u64, n: int) -> bool {
    forall|i: int|
        0 <= i < n ==> ptr + i < VA_LIMIT && (#[trigger] space.frame_at(
            ((ptr + i) / (PAGE_SIZE as int)) as u64,
        )) is Some && space.user_byte(ptr + i) != 0
}

/// Reads the bytes at the virtual address `ptr` of the address space
/// `space` up to, not including, the first zero byte.
///
/// `None` when an address that lies in no framed area comes before a zero
/// byte.
pub fn translated_str(space: &MemorySet, ptr: u64) -> (r: Option<Vec<u8>>)
    requires
        space.wf(),
    ensures
        match r {
            Some(bytes) => {
                &&& text_at(space, ptr, bytes@.len() as int)
                &&& ptr + bytes@.len() < VA_LIMIT
                &&& space.frame_at(((ptr + bytes@.len()) / (PAGE_SIZE as int)) as u64) is Some
                &&& space.user_byte(ptr + bytes@.len()) == 0
                &&& forall|i: int|
                    0 <= i < bytes@.len() ==> #[trigger] bytes@[i] == space.user_byte(ptr + i)
            },
            None => exists|n: int|
                0 <= n && #[trigger] text_at(space, ptr, n) && (ptr + n >= VA_LIMIT
                    || space.frame_at(((ptr + n) / (PAGE_SIZE as int)) as u64) is None),
        },
{
    let mut bytes: Vec<u8> = Vec::new();
    if ptr >= VA_LIMIT {
        proof {
            assert(text_at(space, ptr, 0));
        }
        return None;
    }
    let mut va: u64 = ptr;
    while va < VA_LIMIT
        invariant
            space.wf(),
            ptr <= va <= VA_LIMIT,
            va == ptr + bytes@.len(),
            text_at(space, ptr, bytes@.len() as int),
            forall|i: int| 0 <= i < bytes@.len()
                ==> #[trigger] bytes@[i] == space.user_byte(ptr + i),
        decreases VA_LIMIT - va,
    {
        let vpn: u64 = va / PAGE_SIZE;
        let (k, f) = match space.find_frame(VirtPageNum(vpn)) {
            Some(found) => found,
            None => {
                proof {
                    assert(text_at(space, ptr, bytes@.len() as int));
                }
                return None;
            },
        };
        proof {
            assert(space.area_ok(k as int));
        }
        let b = space.areas[k].data_frames[f].read_byte((va % PAGE_SIZE) as usize);
        if b == 0 {
            return Some(bytes);
        }
        let ghost before = bytes@;
        bytes.push(b);
        proof {
            assert forall|i: int| 0 <= i < bytes@.len() implies ptr + i < VA_LIMIT && (
            #[trigger] space.frame_at(((ptr + i) / (PAGE_SIZE as int)) as u64)) is Some
                && space.user_byte(ptr + i) != 0 by {
                if i < before.len() {
                    assert(space.frame_at(((ptr + i) / (PAGE_SIZE as int)) as u64) is Some);
                }
            }
        }
        va = va + 1;
    }
    proof {
        assert(text_at(space, ptr, bytes@.len() as int));
    }
    None
}

} // verus!
