//! Memory management: addresses, the frame allocator, page tables and
//! address spaces.

pub mod address;
pub mod elf;
pub mod frame_allocator;
pub mod memory_set;
pub mod page_table;
pub mod plan;

use vstd::prelude::*;

use crate::mm::address::PhysAddr;
use crate::mm::frame_allocator::{FramePool, StackFrameAllocator};
use crate::mm::memory_set::{KernelLayout, MemorySet};

verus! {

/// Hands the physical memory between the end of the kernel image and the
/// end of memory to the frame pool `pool`: whole pages only, all of them
/// free.
pub fn allocator_init(pool: &mut StackFrameAllocator, layout: &KernelLayout)
    requires
        layout.wf(),
    ensures
        final(pool).wf(),
        final(pool)@ == ({
            let first = ((layout.ekernel + 4095) / 4096) as u64;
            let end = layout.memory_end / 4096;
            FramePool {
                start: first,
                current: first,
                end: if first <= end {
                    end
                } else {
                    first
                },
                recycled: Seq::empty(),
            }
        }),
{
    let first = PhysAddr(layout.ekernel).ceil();
    let end = PhysAddr(layout.memory_end).floor();
    pool.init(first, end);
}

/// The token to install on a hart to make the kernel address space
/// `kernel_space` the active one.
pub fn kernel_space_init(kernel_space: &MemorySet) -> (token: u64)
    requires
        kernel_space.wf(),
    ensures
        token == kernel_space.spec_token(),
{
    kernel_space.activate()
}

} // verus!
