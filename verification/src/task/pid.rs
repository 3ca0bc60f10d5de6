//! Process identifiers.
//!
//! Identifiers are handed out like frames: one that came back is used
//! again first, most recently returned first; after that the next number
//! that was never used, up to a limit.

use vstd::prelude::*;
use crate::mm::address::{VirtAddr, VirtPageNum};
use crate::mm::frame_allocator::{lemma_allocate_n_adds_up, StackFrameAllocator};
use crate::mm::memory_set::{
    holds_zeros, kernel_stack_range, released, MapPermission, MemorySet, PERM_R, PERM_W,
};
use crate::mm::page_table::MapError;
use crate::config::{
    CPU_NUM, KERNEL_STACK_SIZE, PAGE_SIZE, PID_LIMIT, TRAMPOLINE, USER_SPACE_END, VA_LIMIT,
};

verus! {

/// The owning handle of one process identifier.
#[derive(Debug, PartialEq, Eq)]
pub struct PidHandle(pub usize);

/// Why an identifier could not be returned.
#[derive(Clone, Copy, Debug, PartialEq, Eq, Structural)]
pub enum PidError {
    /// The identifier is not one that a live handle holds.
    NotAllocated,
}

/// The pool of process identifiers.
#[derive(Debug)]
pub struct PidAllocator {
    /// The smallest identifier that was never handed out.
    pub current: usize,
    /// One past the largest identifier that may be handed out.
    pub limit: usize,
    /// Identifiers that came back, oldest first.
    pub recycled: Vec<usize>,
}

impl PidAllocator {
    /// The identifiers that came back were handed out before, and none is
    /// listed twice.
    pub open spec fn wf(&self) -> bool {
        &&& self.current <= self.limit
        &&& self.recycled@.no_duplicates()
        &&& forall|i: int| 0 <= i < self.recycled@.len()
            ==> #[trigger] self.recycled@[i] < self.current
    }

    /// A live handle holds `pid`.
    pub open spec fn is_allocated(&self, pid: usize) -> bool {
        pid < self.current && !self.recycled@.contains(pid)
    }

    /// The identifier the next allocation hands out, if any is left.
    pub open spec fn next(&self) -> Option<usize> {
        if self.recycled@.len() > 0 {
            Some(self.recycled@.last())
        } else if self.current < self.limit {
            Some(self.current)
        } else {
            None
        }
    }

    /// Number of identifiers that can still be handed out.
    pub open spec fn free_count(&self) -> nat {
        (self.recycled@.len() + (self.limit - self.current)) as nat
    }

    /// A pool of the identifiers below `limit`, all of them free.
    pub fn new(limit: usize) -> (pool: PidAllocator)
        ensures
            pool.wf(),
            pool.current == 0,
            pool.limit == limit,
            pool.recycled@.len() == 0,
    {
        PidAllocator { current: 0, limit, recycled: Vec::new() }
    }

    /// Hands out an identifier that no live handle holds, or `None` when
    /// none is left.
    pub fn allocate(&mut self) -> (r: Option<PidHandle>)
        requires
            old(self).wf(),
        ensures
            final(self).wf(),
            final(self).limit == old(self).limit,
            final(self).recycled@ == if old(self).recycled@.len() > 0 {
                old(self).recycled@.drop_last()
            } else {
                old(self).recycled@
            },
            final(self).current == if old(self).recycled@.len() == 0 && old(self).current
                < old(self).limit {
                old(self).current + 1
            } else {
                old(self).current as int
            },
            match r {
                Some(handle) => {
                    &&& old(self).next() == Some(handle.0)
                    &&& !old(self).is_allocated(handle.0)
                    &&& final(self).is_allocated(handle.0)
                    &&& handle.0 < final(self).limit
                    &&& final(self).free_count() == old(self).free_count() - 1
                    &&& forall|q: usize|
                        q != handle.0 ==> final(self).is_allocated(q) == old(self).is_allocated(q)
                },
                None => old(self).next() is None && *final(self) == *old(self),
            },
    {
        if self.recycled.len() > 0 {
            let ghost before = self.recycled@;
            let pid = self.recycled.pop().unwrap();
            proof {
                assert(self.recycled@ == before.drop_last());
                assert(before[before.len() - 1] == pid);
                assert forall|q: usize|
                    self.recycled@.contains(q) == (before.contains(q) && q != pid) by {
                    if self.recycled@.contains(q) {
                        let i = choose|i: int| 0 <= i < self.recycled@.len()
                            && self.recycled@[i] == q;
                        assert(before[i] == q);
                    }
                    if before.contains(q) && q != pid {
                        let i = choose|i: int| 0 <= i < before.len() && before[i] == q;
                        assert(self.recycled@[i] == q);
                    }
                }
                assert forall|i: int| 0 <= i < self.recycled@.len() implies #[trigger]
                    self.recycled@[i] < self.current by {
                    assert(before[i] < self.current);
                }
            }
            Some(PidHandle(pid))
        } else if self.current < self.limit {
            let pid = self.current;
            self.current = self.current + 1;
            Some(PidHandle(pid))
        } else {
            None
        }
    }

    /// Takes the identifier of `handle` back and ends the handle. Fails,
    /// changing nothing, when no live handle holds the identifier.
    #[verifier::loop_isolation(false)]
    pub fn dealloc(&mut self, handle: PidHandle) -> (r: Result<(), PidError>)
        requires
            old(self).wf(),
        ensures
            final(self).wf(),
            final(self).limit == old(self).limit,
            final(self).current == old(self).current,
            r is Ok <==> old(self).is_allocated(handle.0),
            r is Ok ==> final(self).recycled@ == old(self).recycled@.push(handle.0),
            r is Err ==> *final(self) == *old(self),
            r is Ok ==> {
                &&& !final(self).is_allocated(handle.0)
                &&& final(self).next() == Some(handle.0)
                &&& final(self).free_count() == old(self).free_count() + 1
            },
            forall|q: usize|
                q != handle.0 ==> final(self).is_allocated(q) == old(self).is_allocated(q),
    {
        let pid = handle.0;
        if pid >= self.current {
            return Err(PidError::NotAllocated);
        }
        let mut i: usize = 0;
        while i < self.recycled.len()
            invariant
                i <= self.recycled@.len(),
                forall|k: int| 0 <= k < i ==> self.recycled@[k] != pid,
            decreases self.recycled@.len() - i,
        {
            if self.recycled[i] == pid {
                return Err(PidError::NotAllocated);
            }
            i = i + 1;
        }
        let ghost before = self.recycled@;
        self.recycled.push(pid);
        proof {
            let after = self.recycled@;
            assert(after[after.len() - 1] == pid);
            assert forall|q: usize| after.contains(q) == (before.contains(q) || q == pid) by {
                if after.contains(q) {
                    let i = choose|i: int| 0 <= i < after.len() && after[i] == q;
                    if i < before.len() {
                        assert(before[i] == q);
                    }
                }
                if before.contains(q) {
                    let i = choose|i: int| 0 <= i < before.len() && before[i] == q;
                    assert(after[i] == q);
                }
            }
            assert forall|i: int, j: int|
                0 <= i < after.len() && 0 <= j < after.len() && i != j implies after[i]
                != after[j] by {
                if i < before.len() {
                    assert(before.contains(before[i]));
                }
                if j < before.len() {
                    assert(before.contains(before[j]));
                }
            }
        }
        Ok(())
    }
}

/// Takes an identifier from `pool`. `None` when none is left.
pub fn pid_alloc(pool: &mut PidAllocator) -> (r: Option<PidHandle>)
    requires
        old(pool).wf(),
    ensures
        final(pool).wf(),
        final(pool).limit == old(pool).limit,
        final(pool).recycled@ == if old(pool).recycled@.len() > 0 {
            old(pool).recycled@.drop_last()
        } else {
            old(pool).recycled@
        },
        final(pool).current == if old(pool).recycled@.len() == 0 && old(pool).current
            < old(pool).limit {
            old(pool).current + 1
        } else {
            old(pool).current as int
        },
        match r {
            Some(handle) => {
                &&& old(pool).next() == Some(handle.0)
                &&& !old(pool).is_allocated(handle.0)
                &&& final(pool).is_allocated(handle.0)
                &&& handle.0 < final(pool).limit
                &&& final(pool).free_count() == old(pool).free_count() - 1
                &&& forall|q: usize|
                    q != handle.0 ==> final(pool).is_allocated(q) == old(pool).is_allocated(q)
            },
            None => old(pool).next() is None && *final(pool) == *old(pool),
        },
{
    pool.allocate()
}

/// Bytes between the tops of two neighbouring kernel stacks: one stack and
/// one guard page that is never mapped.
pub const KERNEL_STACK_STRIDE: u64 = KERNEL_STACK_SIZE + PAGE_SIZE;

/// The top of the highest kernel stack: the trampoline address within the
/// address width.
pub const KERNEL_STACK_BASE: u64 = TRAMPOLINE % VA_LIMIT;

/// Number of places for kernel stacks: one for each hart, then one for
/// each process identifier.
pub const STACK_SLOTS: usize = CPU_NUM + PID_LIMIT;

/// The bottom and the top address of the kernel stack in place `slot`.
/// Each stack lies below that of the place before, with one guard page
/// between them.
pub open spec fn spec_stack_position(slot: usize) -> (u64, u64) {
    (
        (KERNEL_STACK_BASE - slot * KERNEL_STACK_STRIDE - KERNEL_STACK_SIZE) as u64,
        (KERNEL_STACK_BASE - slot * KERNEL_STACK_STRIDE) as u64,
    )
}

/// The bottom and the top address of the kernel stack in place `slot`.
#[verifier::when_used_as_spec(spec_stack_position)]
pub fn stack_position(slot: usize) -> (r: (u64, u64))
    requires
        slot < STACK_SLOTS,
    ensures
        r == spec_stack_position(slot),
        r.0 + KERNEL_STACK_SIZE == r.1,
        r.1 <= KERNEL_STACK_BASE,
        r.1 < VA_LIMIT,
        r.0 % PAGE_SIZE == 0,
        r.1 % PAGE_SIZE == 0,
        r.0 >= USER_SPACE_END + KERNEL_STACK_STRIDE,
{
    let top: u64 = KERNEL_STACK_BASE - (slot as u64) * KERNEL_STACK_STRIDE;
    let bottom: u64 = top - KERNEL_STACK_SIZE;
    proof {
        assert(KERNEL_STACK_BASE == 0x7f_ffff_f000) by (bit_vector);
        assert(top == 4096 * (0x7ff_ffff - 3 * slot));
        assert(bottom == 4096 * (0x7ff_ffff - 3 * slot - 2));
    }
    (bottom, top)
}

/// The bottom and the top address of the boot stack of the hart `hart`
/// in the kernel address space.
pub open spec fn spec_hart_stack_position(hart: usize) -> (u64, u64) {
    spec_stack_position(hart)
}

/// The bottom and the top address of the boot stack of the hart `hart`.
#[verifier::when_used_as_spec(spec_hart_stack_position)]
pub fn hart_stack_position(hart: usize) -> (r: (u64, u64))
    requires
        hart < CPU_NUM,
    ensures
        r == spec_hart_stack_position(hart),
{
    stack_position(hart)
}

/// The bottom and the top address of the kernel stack of the process `pid`
/// in the kernel address space.
pub open spec fn spec_kernel_stack_position(pid: usize) -> (u64, u64) {
    spec_stack_position((CPU_NUM + pid) as usize)
}

/// The bottom and the top address of the kernel stack of the process `pid`.
#[verifier::when_used_as_spec(spec_kernel_stack_position)]
pub fn kernel_stack_position(pid: usize) -> (r: (u64, u64))
    requires
        pid < PID_LIMIT,
    ensures
        r == spec_kernel_stack_position(pid),
        r.0 + KERNEL_STACK_SIZE == r.1,
        r.1 < VA_LIMIT,
        r.0 % PAGE_SIZE == 0,
        r.1 % PAGE_SIZE == 0,
{
    stack_position(CPU_NUM + pid)
}

/// The kernel stacks in two places share no page, and at least one page
/// that belongs to neither lies between them.
pub proof fn law_kernel_stacks_apart(a: usize, b: usize)
    requires
        a < b < STACK_SLOTS,
    ensures
        spec_stack_position(b).1 + PAGE_SIZE <= spec_stack_position(a).0,
{
}

/// How many frames the mapping of the kernel stack of the process `pid`
/// took from the pool, given how it ended: all it needs, only those for
/// the lacking tables when the frames ran out, or none when a page of the
/// stack was mapped already.
pub open spec fn stack_taken(
    kernel_space: &MemorySet,
    pid: usize,
    r: Result<KernelStack, MapError>,
) -> nat {
    match r {
        Ok(_) => kernel_space.framed_needs(kernel_stack_range(pid)),
        Err(MapError::OutOfMemory) => kernel_space.page_table.tables_needed(
            kernel_stack_range(pid).start.0 as int,
            kernel_stack_range(pid).end.0 as int,
        ),
        Err(_) => 0,
    }
}

/// The kernel stack of one process.
#[derive(Debug)]
pub struct KernelStack {
    pub pid: usize,
}

impl KernelStack {
    /// Maps the kernel stack of the process `pid` in the kernel address
    /// space `kernel_space`: a framed area, zero-filled, readable and
    /// writable, with a guard page on each side that stays unmapped.
    ///
    /// Fails with `AlreadyMapped` when a page of the stack is mapped
    /// already; the pool is then as it was. Else fails with `OutOfMemory`
    /// when the pool has fewer free frames than the stack takes; the
    /// frames for the lacking tables are then taken nevertheless, as far as
    /// they go. A failure leaves the areas and every mapping of the kernel
    /// address space as they were.
    pub fn new(pid: &PidHandle, kernel_space: &mut MemorySet, pool: &mut StackFrameAllocator) -> (r:
        Result<KernelStack, MapError>)
        requires
            pid.0 < PID_LIMIT,
            old(kernel_space).wf(),
            old(pool).wf(),
        ensures
            final(kernel_space).wf(),
            final(pool).wf(),
            final(pool)@.same_bounds(old(pool)@),
            final(kernel_space).page_table.root_ppn() == old(kernel_space).page_table.root_ppn(),
            forall|v: u64| #[trigger]
                old(kernel_space).page_table@.dom().contains(v)
                    ==> final(kernel_space).page_table@.dom().contains(v)
                        && final(kernel_space).page_table@[v] == old(kernel_space).page_table@[v],
            match r {
                Ok(stack) => stack.pid == pid.0 && !old(kernel_space).meets_mapping(
                    kernel_stack_range(pid.0),
                ) && old(pool)@.free_count() >= old(kernel_space).framed_needs(
                    kernel_stack_range(pid.0),
                ),
                Err(MapError::AlreadyMapped) => old(kernel_space).meets_mapping(
                    kernel_stack_range(pid.0),
                ),
                Err(MapError::OutOfMemory) => !old(kernel_space).meets_mapping(
                    kernel_stack_range(pid.0),
                ) && old(pool)@.free_count() < old(kernel_space).framed_needs(
                    kernel_stack_range(pid.0),
                ),
                Err(_) => false,
            },
            final(pool)@ == old(pool)@.allocate_n(stack_taken(old(kernel_space), pid.0, r)),
            final(kernel_space).took(
                old(kernel_space),
                old(pool)@,
                stack_taken(old(kernel_space), pid.0, r),
            ),
            old(kernel_space).sound_in(old(pool)@) ==> final(kernel_space).sound_in(final(pool)@),
            r is Err ==> final(kernel_space).areas@ == old(kernel_space).areas@
                && final(kernel_space).page_table@ == old(kernel_space).page_table@,
            r is Ok ==> {
                let added = final(kernel_space).areas@.last();
                &&& final(kernel_space).areas@ == old(kernel_space).areas@.push(added)
                &&& holds_zeros(added, kernel_stack_range(pid.0), PERM_R | PERM_W)
                &&& final(kernel_space).page_table@
                    == old(kernel_space).page_table@.union_prefer_right(added.entries())
            },
    {
        let (bottom, top) = kernel_stack_position(pid.0);
        proof {
            lemma_allocate_n_adds_up(pool@, 0, 0);
        }
        match kernel_space.insert_framed_area(
            pool,
            VirtAddr(bottom),
            VirtAddr(top),
            MapPermission { bits: PERM_R | PERM_W },
        ) {
            Ok(()) => Ok(KernelStack { pid: pid.0 }),
            Err(e) => Err(e),
        }
    }

    /// Unmaps the stack from the kernel address space `kernel_space` and
    /// gives its frames back to `pool`. Returns whether the stack was
    /// mapped; if not, nothing changes.
    pub fn release(self, kernel_space: &mut MemorySet, pool: &mut StackFrameAllocator) -> (found:
        bool)
        requires
            self.pid < PID_LIMIT,
            old(kernel_space).wf(),
            old(pool).wf(),
        ensures
            final(kernel_space).wf(),
            final(pool).wf(),
            final(pool)@.same_bounds(old(pool)@),
            found == exists|k: int|
                old(kernel_space).starts_at(k, kernel_stack_range(self.pid).start),
            !found ==> *final(kernel_space) == *old(kernel_space) && *final(pool) == *old(pool),
            found ==> {
                let k = old(kernel_space).area_starting_at(kernel_stack_range(self.pid).start)->0;
                let area = old(kernel_space).areas@[k];
                &&& final(kernel_space).areas@ == old(kernel_space).areas@.remove(k)
                &&& final(kernel_space).page_table@ == old(kernel_space).page_table@.remove_keys(
                    Set::new(|v: u64| area.vpn_range.spec_contains(VirtPageNum(v))),
                )
                &&& final(pool)@ == released(old(pool)@, area.data_frames@)
            },
    {
        let (bottom, top) = kernel_stack_position(self.pid);
        kernel_space.remove_area_with_start_vpn(pool, VirtAddr(bottom).floor())
    }

    /// The address just above the stack.
    pub fn get_top(&self) -> (top: u64)
        requires
            self.pid < PID_LIMIT,
        ensures
            top == spec_kernel_stack_position(self.pid).1,
    {
        kernel_stack_position(self.pid).1
    }

    /// The address of the lowest byte of the stack.
    pub fn get_bottom(&self) -> (bottom: u64)
        requires
            self.pid < PID_LIMIT,
        ensures
            bottom == spec_kernel_stack_position(self.pid).0,
    {
        kernel_stack_position(self.pid).0
    }
}

} // verus!
