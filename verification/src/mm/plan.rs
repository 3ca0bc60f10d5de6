//! Building an address space from a plan of its areas.
//!
//! A plan lists the areas of an address space in order. From the plan
//! alone it follows how many frames the space takes: one for the root
//! table, one for each table that serves a page of the trampoline or of an
//! area, and one for each page of a framed area.

use vstd::prelude::*;
use crate::config::{CPU_NUM, PAGE_SIZE, USER_SPACE_END, USER_STACK_SIZE, VA_LIMIT, VPN_LIMIT};
use crate::mm::elf::{
    load_segments, spec_validate, validate, ElfError, ElfHeader, ProgramHeader,
};
use crate::task::pid::hart_stack_position;
use crate::mm::address::{PhysPageNum, VPNRange, VirtPageNum};
use crate::mm::frame_allocator::{
    lemma_allocate_n_adds_up, lemma_allocated_after, lemma_hands_out_first,
    lemma_hands_out_in_turn, lemma_same_allocated_same_free, FramePool, StackFrameAllocator,
};
use crate::mm::memory_set::{
    hart_stack_range, image_end, pages_of, permission_of, program_entry, program_segments,
    program_stack_top, segment_permission, segment_range, trampoline_vpn, trap_context_range,
    user_stack_range, KernelLayout, LoadError, MapArea, MapPermission, MapType, MemorySet, PERM_R,
    PERM_U, PERM_W, PERM_X,
};
use crate::mm::page_table::{MapError, PTEFlags, PageTable, PageTableEntry, FLAG_V};

verus! {

/// One area of a plan: its pages, its backing and permission, and the
/// bytes of the image that it starts with.
#[derive(Clone, Copy, Debug, PartialEq, Eq, Structural)]
pub struct AreaPlan {
    pub range: VPNRange,
    pub map_type: MapType,
    pub map_perm: MapPermission,
    /// Where in the image the bytes of the area start.
    pub offset: usize,
    /// How many bytes of the image the area starts with.
    pub len: usize,
}

impl AreaPlan {
    /// The plan is in order for an image of `image_len` bytes: its bytes
    /// lie within the image and fit in its pages, and only a framed area
    /// has bytes.
    pub open spec fn wf(&self, image_len: int) -> bool {
        &&& self.range.wf()
        &&& self.offset + self.len <= image_len
        &&& self.len <= self.range.spec_len() * PAGE_SIZE
        &&& self.len > 0 ==> self.map_type is Framed
    }

    /// How many frames the pages of the area take.
    pub open spec fn pages(&self) -> nat {
        match self.map_type {
            MapType::Framed => self.range.spec_len(),
            MapType::Identical => 0,
        }
    }

    /// The area `area` is the one planned, built from the image `image`.
    pub open spec fn built(&self, area: MapArea, image: Seq<u8>) -> bool {
        &&& area.wf()
        &&& area.vpn_range == self.range
        &&& area.map_type == self.map_type
        &&& area.map_perm == self.map_perm
        &&& area.map_type is Framed ==> forall|off: int|
            0 <= off < area.size() ==> #[trigger] area.byte(off) == if off < self.len {
                image[self.offset + off]
            } else {
                0u8
            }
    }
}

/// The page of the trampoline, as a range.
pub open spec fn trampoline_range() -> VPNRange {
    VPNRange { start: trampoline_vpn(), end: VirtPageNum(VPN_LIMIT) }
}

/// The ranges that an address space built from `plans` maps: the
/// trampoline, then the areas.
pub open spec fn plan_ranges(plans: Seq<AreaPlan>) -> Seq<VPNRange> {
    Seq::new(
        plans.len() + 1,
        |k: int|
            if k == 0 {
                trampoline_range()
            } else {
                plans[k - 1].range
            },
    )
}

/// The leaf table `n` serves a page of `range`.
pub open spec fn serves_leaf(range: VPNRange, n: int) -> bool {
    range.start.0 < range.end.0 && range.start.0 / 512 <= n <= (range.end.0 - 1) / 512
}

/// The middle table `m` serves a page of `range`.
pub open spec fn serves_mid(range: VPNRange, m: int) -> bool {
    range.start.0 < range.end.0 && range.start.0 / 262144 <= m <= (range.end.0 - 1) / 262144
}

/// The leaf table `n` serves a page of one of `ranges`.
pub open spec fn covers_leaf(ranges: Seq<VPNRange>, n: int) -> bool {
    exists|k: int| 0 <= k < ranges.len() && serves_leaf(#[trigger] ranges[k], n)
}

/// The middle table `m` serves a page of one of `ranges`.
pub open spec fn covers_mid(ranges: Seq<VPNRange>, m: int) -> bool {
    exists|k: int| 0 <= k < ranges.len() && serves_mid(#[trigger] ranges[k], m)
}

/// The page `v` is a page of one of `ranges`.
pub open spec fn covers_page(ranges: Seq<VPNRange>, v: u64) -> bool {
    exists|k: int| 0 <= k < ranges.len() && (#[trigger] ranges[k]).spec_contains(VirtPageNum(v))
}

/// How many of the leaf tables from `lo` up to, not including, `hi` serve
/// no page of `ranges`.
pub open spec fn leaves_lacking(ranges: Seq<VPNRange>, lo: int, hi: int) -> nat
    decreases hi - lo,
{
    if lo >= hi {
        0
    } else {
        leaves_lacking(ranges, lo, hi - 1) + if covers_leaf(ranges, hi - 1) {
            0nat
        } else {
            1nat
        }
    }
}

/// How many of the middle tables from `lo` up to, not including, `hi`
/// serve no page of `ranges`.
pub open spec fn mids_lacking(ranges: Seq<VPNRange>, lo: int, hi: int) -> nat
    decreases hi - lo,
{
    if lo >= hi {
        0
    } else {
        mids_lacking(ranges, lo, hi - 1) + if covers_mid(ranges, hi - 1) {
            0nat
        } else {
            1nat
        }
    }
}

/// How many tables the pages of `range` need beyond those that serve
/// `ranges`.
pub open spec fn tables_lacking(ranges: Seq<VPNRange>, range: VPNRange) -> nat {
    if range.start.0 >= range.end.0 {
        0
    } else {
        leaves_lacking(ranges, range.start.0 as int / 512, (range.end.0 - 1) / 512 + 1)
            + mids_lacking(ranges, range.start.0 as int / 262144, (range.end.0 - 1) / 262144 + 1)
    }
}

/// How many frames the areas of `plans` take, one after the other: for
/// each area the tables that the trampoline and the areas before it do not
/// share with it, and its pages.
pub open spec fn frames_for(plans: Seq<AreaPlan>) -> nat
    decreases plans.len(),
{
    if plans.len() == 0 {
        0
    } else {
        frames_for(plans.drop_last()) + tables_lacking(
            plan_ranges(plans.drop_last()),
            plans.last().range,
        ) + plans.last().pages()
    }
}

/// How many frames an address space built from `plans` takes: the root
/// table, the two tables that serve the trampoline, and the frames of the
/// areas.
pub open spec fn space_frames(plans: Seq<AreaPlan>) -> nat {
    3 + frames_for(plans)
}

/// No page is in two of the ranges of the plan, the trampoline among
/// them.
pub open spec fn plans_apart(plans: Seq<AreaPlan>) -> bool {
    forall|i: int, j: int, v: u64|
        0 <= i < j < plans.len() + 1 ==> !(#[trigger] plan_ranges(plans)[i].spec_contains(
            VirtPageNum(v),
        ) && #[trigger] plan_ranges(plans)[j].spec_contains(VirtPageNum(v)))
}

/// The tables of `table` are those that serve `ranges`.
pub open spec fn shaped_by(table: PageTable, ranges: Seq<VPNRange>) -> bool {
    &&& forall|n: int| #[trigger] table.has_leaf(n) == covers_leaf(ranges, n)
    &&& forall|m: int| #[trigger] table.has_mid(m) == covers_mid(ranges, m)
}

/// A page table whose tables are those that serve `ranges` lacks, for any
/// pages, the tables that `ranges` do not share with them.
pub proof fn lemma_lacking_is_missing(table: PageTable, ranges: Seq<VPNRange>, lo: int, hi: int)
    requires
        shaped_by(table, ranges),
    ensures
        table.leaves_missing(lo, hi) == leaves_lacking(ranges, lo, hi),
        table.mids_missing(lo, hi) == mids_lacking(ranges, lo, hi),
    decreases hi - lo,
{
    if lo < hi {
        lemma_lacking_is_missing(table, ranges, lo, hi - 1);
        assert(table.has_leaf(hi - 1) == covers_leaf(ranges, hi - 1));
        assert(table.has_mid(hi - 1) == covers_mid(ranges, hi - 1));
    }
}

/// The frames of more areas are no fewer.
pub proof fn lemma_frames_for_grows(plans: Seq<AreaPlan>, k: int)
    requires
        0 <= k <= plans.len(),
    ensures
        frames_for(plans.subrange(0, k)) <= frames_for(plans),
    decreases plans.len() - k,
{
    if k == plans.len() {
        assert(plans.subrange(0, k) =~= plans);
    } else {
        lemma_frames_for_grows(plans, k + 1);
        assert(plans.subrange(0, k + 1).drop_last() =~= plans.subrange(0, k));
    }
}

/// Adding the tables that serve `range` to tables that serve `ranges`
/// gives the tables that serve `ranges` and `range`.
pub proof fn lemma_shape_after_area(
    before: PageTable,
    after: PageTable,
    ranges: Seq<VPNRange>,
    range: VPNRange,
)
    requires
        shaped_by(before, ranges),
        after.covers_since(&before, range.start.0 as int, range.end.0 as int),
    ensures
        shaped_by(after, ranges.push(range)),
{
    let more = ranges.push(range);
    assert forall|n: int| #[trigger] after.has_leaf(n) == covers_leaf(more, n) by {
        assert(before.has_leaf(n) == covers_leaf(ranges, n));
        if covers_leaf(ranges, n) {
            let k = choose|k: int| 0 <= k < ranges.len() && serves_leaf(#[trigger] ranges[k], n);
            assert(serves_leaf(more[k], n));
        }
        if serves_leaf(range, n) {
            assert(serves_leaf(more[ranges.len() as int], n));
        }
        if covers_leaf(more, n) {
            let k = choose|k: int| 0 <= k < more.len() && serves_leaf(#[trigger] more[k], n);
            if k < ranges.len() {
                assert(serves_leaf(ranges[k], n));
            }
        }
    }
    assert forall|m: int| #[trigger] after.has_mid(m) == covers_mid(more, m) by {
        assert(before.has_mid(m) == covers_mid(ranges, m));
        if covers_mid(ranges, m) {
            let k = choose|k: int| 0 <= k < ranges.len() && serves_mid(#[trigger] ranges[k], m);
            assert(serves_mid(more[k], m));
        }
        if serves_mid(range, m) {
            assert(serves_mid(more[ranges.len() as int], m));
        }
        if covers_mid(more, m) {
            let k = choose|k: int| 0 <= k < more.len() && serves_mid(#[trigger] more[k], m);
            if k < ranges.len() {
                assert(serves_mid(ranges[k], m));
            }
        }
    }
}

/// A page is a page of `ranges` and `range` if it is one of `ranges` or
/// one of `range`.
pub proof fn lemma_pages_after_area(ranges: Seq<VPNRange>, range: VPNRange, v: u64)
    ensures
        covers_page(ranges.push(range), v) == (covers_page(ranges, v) || range.spec_contains(
            VirtPageNum(v),
        )),
{
    let more = ranges.push(range);
    if covers_page(ranges, v) {
        let k = choose|k: int|
            0 <= k < ranges.len() && (#[trigger] ranges[k]).spec_contains(VirtPageNum(v));
        assert(more[k].spec_contains(VirtPageNum(v)));
    }
    if range.spec_contains(VirtPageNum(v)) {
        assert(more[ranges.len() as int].spec_contains(VirtPageNum(v)));
    }
    if covers_page(more, v) {
        let k = choose|k: int|
            0 <= k < more.len() && (#[trigger] more[k]).spec_contains(VirtPageNum(v));
        if k < ranges.len() {
            assert(ranges[k].spec_contains(VirtPageNum(v)));
        }
    }
}

/// Giving back what an address space took from a pool leaves every frame
/// handed out exactly when it was before the space took anything.
pub proof fn lemma_destroyed_restores(
    before: FramePool,
    taken: nat,
    space: MemorySet,
    after: FramePool,
)
    requires
        before.wf(),
        forall|p: u64| #[trigger] space.owns(p) == before.hands_out(taken, p),
        forall|p: u64| #[trigger]
            after.is_allocated(p) == (before.allocate_n(taken).is_allocated(p) && !space.owns(p)),
    ensures
        forall|p: u64| #[trigger] after.is_allocated(p) == before.is_allocated(p),
{
    assert forall|p: u64| #[trigger] after.is_allocated(p) == before.is_allocated(p) by {
        lemma_allocated_after(before, taken, p);
        assert(space.owns(p) == before.hands_out(taken, p));
    }
}

impl MemorySet {
    /// The mapped pages are exactly the pages of `ranges`.
    pub open spec fn maps_exactly(&self, ranges: Seq<VPNRange>) -> bool {
        forall|v: u64| #[trigger] self.page_table@.dom().contains(v) == covers_page(ranges, v)
    }

    /// The address space is the one planned by `plans`, built from the
    /// image `image`: it has the areas of the plan, in order; the
    /// trampoline page is mapped to `trampoline`, readable and executable;
    /// nothing else is mapped; and it has the tables that serve these
    /// pages, and no others.
    pub open spec fn built_from(
        &self,
        plans: Seq<AreaPlan>,
        image: Seq<u8>,
        trampoline: PhysPageNum,
    ) -> bool {
        &&& self.wf()
        &&& self.areas@.len() == plans.len()
        &&& forall|k: int|
            0 <= k < plans.len() ==> (#[trigger] plans[k]).built(self.areas@[k], image)
        &&& self.maps_exactly(plan_ranges(plans))
        &&& shaped_by(self.page_table, plan_ranges(plans))
        &&& self.page_table@[trampoline_vpn().0] == PageTableEntry::spec_new(
            trampoline,
            PTEFlags { bits: PERM_R | PERM_X | FLAG_V },
        )
    }

    /// A new address space with the trampoline page mapped to
    /// `trampoline` and no area. It takes three frames: one for the root
    /// table and two for the tables that serve the trampoline page.
    fn build_empty(pool: &mut StackFrameAllocator, trampoline: PhysPageNum) -> (r: Option<
        MemorySet,
    >)
        requires
            old(pool).wf(),
            trampoline.wf(),
        ensures
            final(pool).wf(),
            final(pool)@.same_bounds(old(pool)@),
            r is Some <==> old(pool)@.free_count() >= 3,
            r is None ==> final(pool)@.free_count() == old(pool)@.free_count(),
            r is None ==> forall|p: u64| #[trigger]
                final(pool)@.is_allocated(p) == old(pool)@.is_allocated(p),
            r matches Some(space) ==> {
                &&& space.built_from(Seq::empty(), Seq::empty(), trampoline)
                &&& space.sound_in(final(pool)@)
                &&& final(pool)@ == old(pool)@.allocate_n(3)
                &&& forall|p: u64| #[trigger] space.owns(p) == old(pool)@.hands_out(3, p)
                &&& space.page_table.root_ppn().0 == old(pool)@.next()->0
            },
    {
        proof {
            lemma_allocate_n_adds_up(pool@, 1, 2);
            lemma_allocate_n_adds_up(pool@, 1, 0);
            reveal_with_fuel(FramePool::allocate_n, 2);
        }
        let mut space = match MemorySet::new_bare(pool) {
            Some(space) => space,
            None => {
                return None;
            },
        };
        let ghost bare = space;
        proof {
            assert(bare.sound_in(pool@)) by {
                assert forall|p: u64| #[trigger] bare.owns(p) implies pool@.is_allocated(p) by {
                    lemma_allocated_after(old(pool)@, 1, p);
                    lemma_hands_out_first(old(pool)@, p);
                }
                assert forall|p: u64| !bare.owns_data(p) by {}
            }
            assert(!space.page_table@.dom().contains(trampoline_vpn().0));
            assert(!space.page_table.is_mapped(VirtPageNum(trampoline_vpn().0)));
            let (i0, i1, i2) = trampoline_vpn().spec_indexes();
            assert(!space.page_table.has_mid(i0));
            assert(space.page_table.tables_missing(trampoline_vpn()) == 2);
            assert(old(pool)@.allocate_n(1) == pool@);
        }
        match space.map_trampoline(pool, trampoline) {
            Ok(()) => {},
            Err(e) => {
                proof {
                    assert forall|p: u64| #[trigger]
                        space.owns(p) == old(pool)@.hands_out(3, p) by {
                        lemma_hands_out_in_turn(old(pool)@, 1, 2, p);
                        lemma_hands_out_first(old(pool)@, p);
                    }
                }
                space.destroy(pool);
                proof {
                    lemma_destroyed_restores(old(pool)@, 3, space, pool@);
                    lemma_same_allocated_same_free(pool@, old(pool)@);
                }
                return None;
            },
        }
        proof {
            let ranges = plan_ranges(Seq::<AreaPlan>::empty());
            assert(ranges[0] == trampoline_range());
            assert forall|p: u64| #[trigger] space.owns(p) == old(pool)@.hands_out(3, p) by {
                lemma_hands_out_in_turn(old(pool)@, 1, 2, p);
                lemma_hands_out_first(old(pool)@, p);
            }
            assert forall|v: u64| #[trigger]
                space.page_table@.dom().contains(v) == covers_page(ranges, v) by {
                if v == trampoline_vpn().0 {
                    assert(ranges[0].spec_contains(VirtPageNum(v)));
                }
                if covers_page(ranges, v) {
                    let k = choose|k: int|
                        0 <= k < ranges.len() && (#[trigger] ranges[k]).spec_contains(
                            VirtPageNum(v),
                        );
                    assert(k == 0);
                }
            }
            assert forall|n: int| #[trigger]
                space.page_table.has_leaf(n) == covers_leaf(ranges, n) by {
                assert(!bare.page_table.has_leaf(n));
                if serves_leaf(trampoline_range(), n) {
                    assert(serves_leaf(ranges[0], n));
                }
                if covers_leaf(ranges, n) {
                    let k = choose|k: int|
                        0 <= k < ranges.len() && serves_leaf(#[trigger] ranges[k], n);
                    assert(k == 0);
                }
            }
            assert forall|m: int| #[trigger]
                space.page_table.has_mid(m) == covers_mid(ranges, m) by {
                assert(!bare.page_table.has_mid(m));
                if serves_mid(trampoline_range(), m) {
                    assert(serves_mid(ranges[0], m));
                }
                if covers_mid(ranges, m) {
                    let k = choose|k: int|
                        0 <= k < ranges.len() && serves_mid(#[trigger] ranges[k], m);
                    assert(k == 0);
                }
            }
        }
        Some(space)
    }

    /// Builds the address space that `plans` describes, from the image
    /// `image`, taking frames from `pool`.
    ///
    /// Succeeds exactly when no page is in two ranges of the plan, the
    /// trampoline among them, and the pool has the frames that the space
    /// takes. Else it fails with `AlreadyMapped`, which it does only when a
    /// page is in two ranges, or with `OutOfMemory`, which it does only
    /// when the pool has too few frames. After a failure every frame is
    /// handed out exactly when it was before.
    pub fn build(
        pool: &mut StackFrameAllocator,
        trampoline: PhysPageNum,
        plans: &Vec<AreaPlan>,
        image: &[u8],
    ) -> (r: Result<MemorySet, MapError>)
        requires
            old(pool).wf(),
            trampoline.wf(),
            forall|k: int| 0 <= k < plans@.len() ==> (#[trigger] plans@[k]).wf(image@.len() as int),
        ensures
            final(pool).wf(),
            final(pool)@.same_bounds(old(pool)@),
            match r {
                Ok(_) => plans_apart(plans@) && old(pool)@.free_count() >= space_frames(plans@),
                Err(MapError::AlreadyMapped) => !plans_apart(plans@),
                Err(MapError::OutOfMemory) => old(pool)@.free_count() < space_frames(plans@),
                Err(_) => false,
            },
            r is Err ==> final(pool)@.free_count() == old(pool)@.free_count(),
            r is Err ==> forall|p: u64| #[trigger]
                final(pool)@.is_allocated(p) == old(pool)@.is_allocated(p),
            r matches Ok(space) ==> {
                &&& space.built_from(plans@, image@, trampoline)
                &&& space.sound_in(final(pool)@)
                &&& final(pool)@ == old(pool)@.allocate_n(space_frames(plans@))
                &&& forall|p: u64| #[trigger]
                    space.owns(p) == old(pool)@.hands_out(space_frames(plans@), p)
                &&& space.page_table.root_ppn().0 == old(pool)@.next()->0
            },
    {
        proof {
            lemma_frames_for_grows(plans@, 0);
            assert(plans@.subrange(0, 0) =~= Seq::<AreaPlan>::empty());
        }
        let mut space = match MemorySet::build_empty(pool, trampoline) {
            Some(space) => space,
            None => {
                return Err(MapError::OutOfMemory);
            },
        };
        let ghost root = space.page_table.root_ppn();
        let mut k: usize = 0;
        while k < plans.len()
            invariant
                k <= plans@.len(),
                old(pool).wf(),
                pool.wf(),
                trampoline.wf(),
                pool@.same_bounds(old(pool)@),
                forall|i: int|
                    0 <= i < plans@.len() ==> (#[trigger] plans@[i]).wf(image@.len() as int),
                space.built_from(plans@.subrange(0, k as int), image@, trampoline),
                space.sound_in(pool@),
                space.page_table.root_ppn() == root,
                root.0 == old(pool)@.next()->0,
                old(pool)@.free_count() >= space_frames(plans@.subrange(0, k as int)),
                pool@ == old(pool)@.allocate_n(space_frames(plans@.subrange(0, k as int))),
                forall|p: u64| #[trigger]
                    space.owns(p) == old(pool)@.hands_out(
                        space_frames(plans@.subrange(0, k as int)),
                        p,
                    ),
                plans_apart(plans@.subrange(0, k as int)),
            decreases plans@.len() - k,
        {
            let plan = plans[k];
            let ghost done = plans@.subrange(0, k as int);
            let ghost next = plans@.subrange(0, k + 1);
            let ghost ranges = plan_ranges(done);
            let ghost taken = space_frames(done);
            let ghost before = space;
            let area = MapArea {
                vpn_range: plan.range,
                data_frames: Vec::new(),
                map_type: plan.map_type,
                map_perm: plan.map_perm,
            };
            let _ = image.len();
            let data = vstd::slice::slice_subrange(image, plan.offset, plan.offset + plan.len);
            proof {
                assert(next.drop_last() =~= done);
                assert(next.last() == plan);
                assert(plan_ranges(next) =~= ranges.push(plan.range));
                lemma_lacking_is_missing(
                    space.page_table,
                    ranges,
                    plan.range.start.0 as int / 512,
                    (plan.range.end.0 - 1) / 512 + 1,
                );
                lemma_lacking_is_missing(
                    space.page_table,
                    ranges,
                    plan.range.start.0 as int / 262144,
                    (plan.range.end.0 - 1) / 262144 + 1,
                );
                assert(space.frames_needed(&area) == tables_lacking(ranges, plan.range)
                    + plan.pages());
                lemma_frames_for_grows(plans@, k + 1);
                lemma_allocate_n_adds_up(old(pool)@, taken, space.frames_needed(&area));
                lemma_allocate_n_adds_up(
                    old(pool)@,
                    taken,
                    space.page_table.tables_needed(
                        plan.range.start.0 as int,
                        plan.range.end.0 as int,
                    ),
                );
                lemma_meeting_is_sharing(space, plans@, k as int);
            }
            match space.push(pool, area, data) {
                Ok(()) => {},
                Err(e) => {
                    let ghost tables = before.page_table.tables_needed(
                        plan.range.start.0 as int,
                        plan.range.end.0 as int,
                    );
                    let ghost extra = if e == MapError::OutOfMemory {
                        tables
                    } else {
                        0nat
                    };
                    proof {
                        lemma_allocate_n_adds_up(old(pool)@, taken, 0);
                        assert(pool@ == old(pool)@.allocate_n(taken + extra));
                        assert forall|p: u64| #[trigger]
                            space.owns(p) == old(pool)@.hands_out(taken + extra, p) by {
                            lemma_hands_out_in_turn(old(pool)@, taken, extra, p);
                        }
                    }
                    space.destroy(pool);
                    proof {
                        lemma_destroyed_restores(old(pool)@, taken + extra, space, pool@);
                        lemma_same_allocated_same_free(pool@, old(pool)@);
                    }
                    return Err(e);
                },
            }
            proof {
                let added = space.areas@.last();
                assert forall|i: int| 0 <= i < next.len() implies (#[trigger] next[i]).built(
                    space.areas@[i],
                    image@,
                ) by {
                    if i < k {
                        assert(done[i].built(before.areas@[i], image@));
                        assert(space.areas@[i] == before.areas@[i]);
                        assert(next[i] == done[i]);
                    } else {
                        assert(space.areas@[i] == added);
                        assert(next[i] == plan);
                        if added.map_type is Framed {
                            assert forall|off: int| 0 <= off < added.size() implies #[trigger]
                                added.byte(off) == if off < plan.len {
                                image@[plan.offset + off]
                            } else {
                                0u8
                            } by {
                                if off < plan.len {
                                    assert(data@[off] == image@[plan.offset + off]);
                                }
                            }
                        }
                    }
                }
                lemma_shape_after_area(before.page_table, space.page_table, ranges, plan.range);
                assert forall|v: u64| #[trigger]
                    space.page_table@.dom().contains(v) == covers_page(plan_ranges(next), v) by {
                    lemma_pages_after_area(ranges, plan.range, v);
                    assert(before.page_table@.dom().contains(v) == covers_page(ranges, v));
                }
                assert(before.page_table@.dom().contains(trampoline_vpn().0)) by {
                    assert(ranges[0].spec_contains(VirtPageNum(trampoline_vpn().0)));
                }
                assert forall|p: u64| #[trigger]
                    space.owns(p) == old(pool)@.hands_out(space_frames(next), p) by {
                    lemma_hands_out_in_turn(old(pool)@, taken, before.frames_needed(&area), p);
                }
                assert forall|v: u64| plan.range.spec_contains(VirtPageNum(v)) implies
                    !#[trigger] covers_page(
                    ranges,
                    v,
                ) by {
                    assert(before.page_table@.dom().contains(v) == covers_page(ranges, v));
                    assert(!before.meets_mapping(plan.range));
                }
                lemma_apart_grows(plans@, k as int);
            }
            k = k + 1;
        }
        proof {
            assert(plans@.subrange(0, k as int) =~= plans@);
        }
        Ok(space)
    }
}

/// An area meets a mapping of a space built from the areas before it
/// exactly when it shares a page with the trampoline or one of them.
pub proof fn lemma_meeting_is_sharing(space: MemorySet, plans: Seq<AreaPlan>, k: int)
    requires
        0 <= k < plans.len(),
        space.maps_exactly(plan_ranges(plans.subrange(0, k))),
    ensures
        space.meets_mapping(plans[k].range) ==> !plans_apart(plans),
        space.meets_mapping(plans[k].range) ==> !plans_apart(plans.subrange(0, k + 1)),
        plans_apart(plans.subrange(0, k + 1)) ==> !space.meets_mapping(plans[k].range),
{
    let done = plans.subrange(0, k);
    let next = plans.subrange(0, k + 1);
    if space.meets_mapping(plans[k].range) {
        let v = choose|v: u64|
            plans[k].range.spec_contains(VirtPageNum(v))
                && #[trigger] space.page_table@.dom().contains(
                v,
            );
        assert(covers_page(plan_ranges(done), v));
        let i = choose|i: int|
            0 <= i < plan_ranges(done).len() && (#[trigger] plan_ranges(done)[i]).spec_contains(
                VirtPageNum(v),
            );
        assert(plan_ranges(plans)[i] == plan_ranges(done)[i]);
        assert(plan_ranges(plans)[k + 1] == plans[k].range);
        assert(plan_ranges(plans)[i].spec_contains(VirtPageNum(v)) && plan_ranges(plans)[k
            + 1].spec_contains(VirtPageNum(v)));
        assert(plan_ranges(next)[i] == plan_ranges(done)[i]);
        assert(plan_ranges(next)[k + 1] == plans[k].range);
        assert(plan_ranges(next)[i].spec_contains(VirtPageNum(v)) && plan_ranges(next)[k
            + 1].spec_contains(VirtPageNum(v)));
    }
}

/// If the first areas of a plan share no page and the next area shares
/// none with them, then these areas share no page; and if all areas of a
/// plan share no page, neither do the first of them.
pub proof fn lemma_apart_grows(plans: Seq<AreaPlan>, k: int)
    requires
        0 <= k < plans.len(),
    ensures
        plans_apart(plans) ==> plans_apart(plans.subrange(0, k + 1)),
        plans_apart(plans.subrange(0, k)) && (forall|v: u64|
            plans[k].range.spec_contains(VirtPageNum(v)) ==> !#[trigger] covers_page(
                plan_ranges(plans.subrange(0, k)),
                v,
            )) ==> plans_apart(plans.subrange(0, k + 1)),
{
    let done = plans.subrange(0, k);
    let next = plans.subrange(0, k + 1);
    if plans_apart(plans) {
        assert forall|i: int, j: int, v: u64| 0 <= i < j < next.len() + 1 implies !(
        #[trigger] plan_ranges(next)[i].spec_contains(VirtPageNum(v))
            && #[trigger] plan_ranges(next)[j].spec_contains(VirtPageNum(v))) by {
            assert(plan_ranges(next)[i] == plan_ranges(plans)[i]);
            assert(plan_ranges(next)[j] == plan_ranges(plans)[j]);
            assert(!(plan_ranges(plans)[i].spec_contains(VirtPageNum(v))
                && plan_ranges(plans)[j].spec_contains(VirtPageNum(v))));
        }
    }
    if plans_apart(done) && (forall|v: u64|
        plans[k].range.spec_contains(VirtPageNum(v)) ==> !#[trigger] covers_page(
            plan_ranges(done),
            v,
        )) {
        assert forall|i: int, j: int, v: u64| 0 <= i < j < next.len() + 1 implies !(
        #[trigger] plan_ranges(next)[i].spec_contains(VirtPageNum(v))
            && #[trigger] plan_ranges(next)[j].spec_contains(VirtPageNum(v))) by {
            assert(plan_ranges(next)[i] == plan_ranges(done)[i]);
            if j < k + 1 {
                assert(plan_ranges(next)[j] == plan_ranges(done)[j]);
                assert(!(plan_ranges(done)[i].spec_contains(VirtPageNum(v))
                    && plan_ranges(done)[j].spec_contains(VirtPageNum(v))));
            } else {
                assert(plan_ranges(next)[j] == plans[k].range);
                if plan_ranges(done)[i].spec_contains(VirtPageNum(v)) {
                    assert(covers_page(plan_ranges(done), v));
                }
            }
        }
    }
}

/// The plan of the area of the segment `ph`: framed, on the pages of the
/// segment, with the permission of the segment, starting with the file
/// bytes of the segment.
pub open spec fn segment_plan(ph: ProgramHeader) -> AreaPlan {
    AreaPlan {
        range: segment_range(ph),
        map_type: MapType::Framed,
        map_perm: segment_permission(ph.flags),
        offset: ph.offset as usize,
        len: ph.filesz as usize,
    }
}

/// The plan of a framed area on `range` with the permission bits `bits`,
/// filled with zeros.
pub open spec fn zeroed_plan(range: VPNRange, bits: u8) -> AreaPlan {
    AreaPlan {
        range,
        map_type: MapType::Framed,
        map_perm: MapPermission { bits },
        offset: 0,
        len: 0,
    }
}

/// The plan of an identical area for the addresses from `start` up to, not
/// including, `end`, with the permission bits `bits`.
pub open spec fn identical_plan(start: u64, end: u64, bits: u8) -> AreaPlan {
    AreaPlan {
        range: pages_of(start, end),
        map_type: MapType::Identical,
        map_perm: MapPermission { bits },
        offset: 0,
        len: 0,
    }
}

/// The plans of the areas of the segments `segments`.
pub open spec fn segment_plans(segments: Seq<ProgramHeader>) -> Seq<AreaPlan> {
    Seq::new(segments.len(), |k: int| segment_plan(segments[k]))
}

/// The plan of the address space of the program of a well-formed image:
/// one area for each segment to load, in the order of the program headers;
/// then the user stack, one guard page above the last page of the
/// segments, readable and writable from user mode; then the page of the
/// trap context, readable and writable from the kernel only.
pub open spec fn program_plans(bytes: Seq<u8>) -> Seq<AreaPlan> {
    let segments = program_segments(bytes);
    segment_plans(segments).push(
        zeroed_plan(user_stack_range(image_end(segments)), PERM_R | PERM_W | PERM_U),
    ).push(zeroed_plan(trap_context_range(), PERM_R | PERM_W))
}

/// The plan of the address space of the kernel on a machine with `harts`
/// harts: the sections of the kernel image and the memory behind it,
/// mapped identically, each with the permission it needs, and one framed
/// boot stack for each hart.
pub open spec fn kernel_plans(layout: KernelLayout, harts: usize) -> Seq<AreaPlan> {
    seq![
        identical_plan(layout.stext, layout.etext, PERM_R | PERM_X),
        identical_plan(layout.srodata, layout.erodata, PERM_R),
        identical_plan(layout.sdata, layout.edata, PERM_R | PERM_W),
        identical_plan(layout.sbss, layout.ebss, PERM_R | PERM_W),
        identical_plan(layout.ekernel, layout.memory_end, PERM_R | PERM_W),
    ] + Seq::new(
        harts as nat,
        |h: int| zeroed_plan(hart_stack_range(h as usize), PERM_R | PERM_W),
    )
}

impl MemorySet {
    /// The address space holds the program of the image `bytes`: it is the
    /// one planned for the program, but for what the page of the trap
    /// context holds.
    pub open spec fn holds_program(&self, bytes: Seq<u8>, trampoline: PhysPageNum) -> bool {
        let plans = program_plans(bytes);
        &&& self.wf()
        &&& self.areas@.len() == plans.len()
        &&& forall|k: int|
            0 <= k < plans.len() - 1 ==> (#[trigger] plans[k]).built(self.areas@[k], bytes)
        &&& self.has_trap_page()
        &&& self.maps_exactly(plan_ranges(plans))
        &&& shaped_by(self.page_table, plan_ranges(plans))
        &&& self.page_table@[trampoline_vpn().0] == PageTableEntry::spec_new(
            trampoline,
            PTEFlags { bits: PERM_R | PERM_X | FLAG_V },
        )
    }

    /// Builds the address space of a program from its image.
    ///
    /// The space gets one framed area for each segment to load, in the
    /// order of the program headers, holding the bytes of the segment; then
    /// the user stack, one guard page above the last page of the segments;
    /// then the page of the trap context. The trampoline page is mapped to
    /// `trampoline`. Returns the space, the address just above the user
    /// stack, and the entry address.
    ///
    /// Fails with the fault of the image if the image is malformed. Else
    /// it succeeds exactly when no two segments share a page and the pool
    /// has the frames that the space takes; it fails with `AlreadyMapped`
    /// only if two segments share a page, and with `OutOfMemory` only if
    /// the pool has too few frames. After a failure every frame is handed
    /// out exactly when it was before.
    pub fn from_elf(pool: &mut StackFrameAllocator, elf_data: &[u8], trampoline: PhysPageNum) -> (r:
        Result<(MemorySet, u64, u64), LoadError>)
        requires
            old(pool).wf(),
            trampoline.wf(),
        ensures
            final(pool).wf(),
            final(pool)@.same_bounds(old(pool)@),
            match spec_validate(elf_data@) {
                Err(e) => r matches Err(fault) && fault == LoadError::Image(e) && final(pool)@
                    == old(pool)@,
                Ok(_) => match r {
                    Ok(_) => segments_apart(program_segments(elf_data@))
                        && old(pool)@.free_count() >= space_frames(program_plans(elf_data@)),
                    Err(LoadError::Space(MapError::AlreadyMapped)) => !segments_apart(
                        program_segments(elf_data@),
                    ),
                    Err(LoadError::Space(MapError::OutOfMemory)) => old(pool)@.free_count()
                        < space_frames(program_plans(elf_data@)),
                    Err(_) => false,
                },
            },
            r is Err ==> final(pool)@.free_count() == old(pool)@.free_count(),
            r is Err ==> forall|p: u64| #[trigger]
                final(pool)@.is_allocated(p) == old(pool)@.is_allocated(p),
            r matches Ok((space, user_sp, entry)) ==> {
                &&& space.built_from(program_plans(elf_data@), elf_data@, trampoline)
                &&& space.sound_in(final(pool)@)
                &&& space.holds_program(elf_data@, trampoline)
                &&& entry == program_entry(elf_data@)
                &&& user_sp == program_stack_top(elf_data@)
                &&& final(pool)@ == old(pool)@.allocate_n(space_frames(program_plans(elf_data@)))
                &&& forall|p: u64| #[trigger]
                    space.owns(p) == old(pool)@.hands_out(
                        space_frames(program_plans(elf_data@)),
                        p,
                    )
                &&& space.page_table.root_ppn().0 == old(pool)@.next()->0
            },
    {
        let header = match validate(elf_data) {
            Ok(header) => header,
            Err(e) => {
                return Err(LoadError::Image(e));
            },
        };
        proof {
            law_program_areas_apart(elf_data@);
        }
        let (mut plans, end) = segment_areas(elf_data, &header);
        let bottom: u64 = end + 1;
        plans.push(
            AreaPlan {
                range: VPNRange::new(VirtPageNum(bottom), VirtPageNum(bottom + 2)),
                map_type: MapType::Framed,
                map_perm: MapPermission { bits: PERM_R | PERM_W | PERM_U },
                offset: 0,
                len: 0,
            },
        );
        plans.push(
            AreaPlan {
                range: VPNRange::new(VirtPageNum(VPN_LIMIT - 2), VirtPageNum(VPN_LIMIT - 1)),
                map_type: MapType::Framed,
                map_perm: MapPermission { bits: PERM_R | PERM_W },
                offset: 0,
                len: 0,
            },
        );
        proof {
            assert(plans@ =~= program_plans(elf_data@));
            assert forall|k: int| 0 <= k < plans@.len() implies (#[trigger] plans@[k]).wf(
                elf_data@.len() as int,
            ) by {}
        }
        match MemorySet::build(pool, trampoline, &plans, elf_data) {
            Ok(space) => {
                proof {
                    let last = plans@.len() - 1;
                    assert(plans@[last].built(space.areas@[last], elf_data@));
                    assert(space.areas@.last() == space.areas@[last]);
                }
                Ok((space, (end + 1) * PAGE_SIZE + USER_STACK_SIZE, header.entry))
            },
            Err(e) => Err(LoadError::Space(e)),
        }
    }

    /// Builds the address space of the kernel.
    ///
    /// The sections of the kernel image and the rest of physical memory
    /// are mapped identically, each with the permission it needs: text
    /// readable and executable, read-only data readable, data and bss
    /// readable and writable, and the memory above the image readable and
    /// writable. Each of the first `harts` harts gets a framed boot stack,
    /// with a guard page between neighbouring stacks. The trampoline page
    /// is mapped to `trampoline`.
    ///
    /// Succeeds exactly when no two areas share a page and the pool has
    /// the frames that the space takes; fails with `AlreadyMapped` only in
    /// the first case and with `OutOfMemory` only in the second. After a
    /// failure every frame is handed out exactly when it was before.
    pub fn new_kernel(
        pool: &mut StackFrameAllocator,
        layout: &KernelLayout,
        trampoline: PhysPageNum,
        harts: usize,
    ) -> (r: Result<MemorySet, MapError>)
        requires
            old(pool).wf(),
            layout.wf(),
            trampoline.wf(),
            harts <= CPU_NUM,
        ensures
            final(pool).wf(),
            final(pool)@.same_bounds(old(pool)@),
            match r {
                Ok(_) => plans_apart(kernel_plans(*layout, harts)) && old(pool)@.free_count()
                    >= space_frames(kernel_plans(*layout, harts)),
                Err(MapError::AlreadyMapped) => !plans_apart(kernel_plans(*layout, harts)),
                Err(MapError::OutOfMemory) => old(pool)@.free_count() < space_frames(
                    kernel_plans(*layout, harts),
                ),
                Err(_) => false,
            },
            r is Err ==> final(pool)@.free_count() == old(pool)@.free_count(),
            r is Err ==> forall|p: u64| #[trigger]
                final(pool)@.is_allocated(p) == old(pool)@.is_allocated(p),
            r matches Ok(space) ==> {
                &&& space.built_from(kernel_plans(*layout, harts), Seq::empty(), trampoline)
                &&& space.sound_in(final(pool)@)
                &&& final(pool)@ == old(pool)@.allocate_n(
                    space_frames(kernel_plans(*layout, harts)),
                )
                &&& forall|p: u64| #[trigger]
                    space.owns(p) == old(pool)@.hands_out(
                        space_frames(kernel_plans(*layout, harts)),
                        p,
                    )
                &&& space.page_table.root_ppn().0 == old(pool)@.next()->0
            },
    {
        let mut plans: Vec<AreaPlan> = Vec::new();
        plans.push(identical_area(layout.stext, layout.etext, PERM_R | PERM_X));
        plans.push(identical_area(layout.srodata, layout.erodata, PERM_R));
        plans.push(identical_area(layout.sdata, layout.edata, PERM_R | PERM_W));
        plans.push(identical_area(layout.sbss, layout.ebss, PERM_R | PERM_W));
        plans.push(identical_area(layout.ekernel, layout.memory_end, PERM_R | PERM_W));
        let mut h: usize = 0;
        while h < harts
            invariant
                h <= harts <= CPU_NUM,
                layout.wf(),
                plans@ == kernel_plans(*layout, h),
            decreases harts - h,
        {
            let (bottom, top) = hart_stack_position(h);
            plans.push(
                AreaPlan {
                    range: VPNRange::new(
                        VirtPageNum(bottom / PAGE_SIZE),
                        VirtPageNum(top / PAGE_SIZE),
                    ),
                    map_type: MapType::Framed,
                    map_perm: MapPermission { bits: PERM_R | PERM_W },
                    offset: 0,
                    len: 0,
                },
            );
            proof {
                assert(plans@ =~= kernel_plans(*layout, (h + 1) as usize));
            }
            h = h + 1;
        }
        let nothing: Vec<u8> = Vec::new();
        proof {
            assert forall|k: int| 0 <= k < plans@.len() implies (#[trigger] plans@[k]).wf(0) by {}
            assert(nothing@ =~= Seq::<u8>::empty());
        }
        MemorySet::build(pool, trampoline, &plans, nothing.as_slice())
    }
}

/// The plan of an identical area for the addresses from `start` up to, not
/// including, `end`, widened to whole pages.
fn identical_area(start: u64, end: u64, bits: u8) -> (r: AreaPlan)
    requires
        start < VA_LIMIT,
        end < VA_LIMIT,
    ensures
        r == identical_plan(start, end, bits),
        r.wf(0),
{
    let first: u64 = start / PAGE_SIZE;
    let last: u64 = if start < end {
        (end + (PAGE_SIZE - 1)) / PAGE_SIZE
    } else {
        first
    };
    AreaPlan {
        range: VPNRange::new(VirtPageNum(first), VirtPageNum(last)),
        map_type: MapType::Identical,
        map_perm: MapPermission { bits },
        offset: 0,
        len: 0,
    }
}

/// The plan of the area of the segment `ph` of an image of `len` bytes.
fn segment_area(ph: &ProgramHeader, len: usize) -> (r: AreaPlan)
    requires
        ph.spec_in_bounds(len as int),
    ensures
        r == segment_plan(*ph),
        r.wf(len as int),
        r.range.end.0 <= USER_SPACE_END / PAGE_SIZE,
{
    let first: u64 = ph.vaddr / PAGE_SIZE;
    let last: u64 = if ph.memsz > 0 {
        (ph.vaddr + ph.memsz + (PAGE_SIZE - 1)) / PAGE_SIZE
    } else {
        first
    };
    AreaPlan {
        range: VPNRange::new(VirtPageNum(first), VirtPageNum(last)),
        map_type: MapType::Framed,
        map_perm: permission_of(ph.flags),
        offset: ph.offset as usize,
        len: ph.filesz as usize,
    }
}

/// The plans of the areas of the segments to load of an image with the
/// file header `header`, and one past the last page of the segments.
fn segment_areas(elf_data: &[u8], header: &ElfHeader) -> (r: (Vec<AreaPlan>, u64))
    requires
        spec_validate(elf_data@) == Ok::<ElfHeader, ElfError>(*header),
        header.table_within(elf_data@.len() as int),
    ensures
        r.0@ == segment_plans(program_segments(elf_data@)),
        r.1 == image_end(program_segments(elf_data@)),
        r.1 <= USER_SPACE_END / PAGE_SIZE,
        forall|k: int| 0 <= k < r.0@.len() ==> (#[trigger] r.0@[k]).wf(elf_data@.len() as int),
{
    let mut plans: Vec<AreaPlan> = Vec::new();
    let mut end: u64 = 0;
    let mut i: u16 = 0;
    while i < header.phnum
        invariant
            i <= header.phnum,
            spec_validate(elf_data@) == Ok::<ElfHeader, ElfError>(*header),
            header.table_within(elf_data@.len() as int),
            plans@ == segment_plans(load_segments(elf_data@, *header, i as int)),
            end == image_end(load_segments(elf_data@, *header, i as int)),
            end <= USER_SPACE_END / PAGE_SIZE,
            forall|k: int|
                0 <= k < plans@.len() ==> (#[trigger] plans@[k]).wf(elf_data@.len() as int),
        decreases header.phnum - i,
    {
        let ph = ProgramHeader::parse(elf_data, header, i);
        let ghost before = load_segments(elf_data@, *header, i as int);
        if ph.is_load() {
            let _ = elf_data.len();
            proof {
                assert(crate::mm::elf::segments_in_bounds(
                    elf_data@,
                    *header,
                    header.phnum as int,
                ));
                assert(ProgramHeader::spec_parse(elf_data@, *header, i as int).spec_in_bounds(
                    elf_data@.len() as int,
                ));
                assert(load_segments(elf_data@, *header, i + 1) == before.push(ph));
                assert(before.push(ph).drop_last() =~= before);
            }
            let plan = segment_area(&ph, elf_data.len());
            plans.push(plan);
            if plan.range.end.0 > end {
                end = plan.range.end.0;
            }
            proof {
                assert(plans@ =~= segment_plans(before.push(ph)));
            }
        } else {
            proof {
                assert(load_segments(elf_data@, *header, i + 1) == before);
            }
        }
        i = i + 1;
    }
    (plans, end)
}

/// No two of the segments `segments` share a page.
pub open spec fn segments_apart(segments: Seq<ProgramHeader>) -> bool {
    forall|a: int, b: int, v: u64|
        0 <= a < b < segments.len() ==> !(#[trigger] segment_range(segments[a]).spec_contains(
            VirtPageNum(v),
        ) && #[trigger] segment_range(segments[b]).spec_contains(VirtPageNum(v)))
}

/// Every segment to load of an image whose segments are within bounds
/// ends within the space for programs, and no segment ends behind the end
/// of the image.
pub proof fn lemma_segments_end_in_bounds(bytes: Seq<u8>, header: ElfHeader, n: int, k: int)
    requires
        crate::mm::elf::segments_in_bounds(bytes, header, n),
        0 <= k < load_segments(bytes, header, n).len(),
    ensures
        segment_range(load_segments(bytes, header, n)[k]).end.0 <= image_end(
            load_segments(bytes, header, n),
        ),
        image_end(load_segments(bytes, header, n)) <= USER_SPACE_END / PAGE_SIZE,
        segment_range(load_segments(bytes, header, n)[k]).wf(),
    decreases n,
{
    if n > 0 {
        let rest = load_segments(bytes, header, n - 1);
        let last = ProgramHeader::spec_parse(bytes, header, n - 1);
        if last.spec_is_load() {
            assert(last.spec_in_bounds(bytes.len() as int));
            assert(load_segments(bytes, header, n).drop_last() =~= rest);
            if k < rest.len() {
                lemma_segments_end_in_bounds(bytes, header, n - 1, k);
            } else if rest.len() > 0 {
                lemma_segments_end_in_bounds(bytes, header, n - 1, 0);
            }
        } else {
            lemma_segments_end_in_bounds(bytes, header, n - 1, k);
        }
    }
}

/// The areas of the program of a well-formed image share a page only if
/// two segments do: the user stack, the page of the trap context and the
/// trampoline lie apart from each other and from every segment.
pub proof fn law_program_areas_apart(bytes: Seq<u8>)
    requires
        spec_validate(bytes) is Ok,
    ensures
        plans_apart(program_plans(bytes)) == segments_apart(program_segments(bytes)),
{
    let header = spec_validate(bytes)->Ok_0;
    let segments = program_segments(bytes);
    let plans = program_plans(bytes);
    let ranges = plan_ranges(plans);
    let n = segments.len() as int;
    assert(plans.len() == n + 2);
    assert(ranges[0] == trampoline_range());
    assert(ranges[n + 1] == user_stack_range(image_end(segments)));
    assert(ranges[n + 2] == trap_context_range());
    assert forall|k: int| 0 <= k < n implies #[trigger] ranges[k + 1] == segment_range(
        segments[k],
    ) && segment_range(segments[k]).end.0 <= image_end(segments) && image_end(segments)
        <= USER_SPACE_END / PAGE_SIZE by {
        lemma_segments_end_in_bounds(bytes, header, header.phnum as int, k);
    }
    if n == 0 {
        assert(image_end(segments) == 0);
    } else {
        lemma_segments_end_in_bounds(bytes, header, header.phnum as int, 0);
    }
    if segments_apart(segments) {
        assert forall|i: int, j: int, v: u64| 0 <= i < j < plans.len() + 1 implies !(
        #[trigger] ranges[i].spec_contains(VirtPageNum(v)) && #[trigger] ranges[j].spec_contains(
            VirtPageNum(v),
        )) by {
            if 1 <= i && j <= n {
                assert(ranges[i - 1 + 1] == segment_range(segments[i - 1]));
                assert(ranges[j - 1 + 1] == segment_range(segments[j - 1]));
                assert(!(segment_range(segments[i - 1]).spec_contains(VirtPageNum(v))
                    && segment_range(segments[j - 1]).spec_contains(VirtPageNum(v))));
            } else {
                if 1 <= i <= n {
                    assert(ranges[i - 1 + 1] == segment_range(segments[i - 1]));
                }
                if 1 <= j <= n {
                    assert(ranges[j - 1 + 1] == segment_range(segments[j - 1]));
                }
            }
        }
    }
    if plans_apart(plans) {
        assert forall|a: int, b: int, v: u64| 0 <= a < b < segments.len() implies !(
        #[trigger] segment_range(segments[a]).spec_contains(VirtPageNum(v))
            && #[trigger] segment_range(segments[b]).spec_contains(VirtPageNum(v))) by {
            assert(ranges[a + 1] == segment_range(segments[a]));
            assert(ranges[b + 1] == segment_range(segments[b]));
            assert(!(ranges[a + 1].spec_contains(VirtPageNum(v)) && ranges[b + 1].spec_contains(
                VirtPageNum(v),
            )));
        }
    }
}

} // verus!
