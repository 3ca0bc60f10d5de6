//! Machine and layout constants.

use vstd::prelude::*;

verus! {

/// Number of harts the machine boots with.
pub const CPU_NUM: usize = 4;

/// The hart that performs the one-time global initialisation.
pub const CONTROL_CPU: usize = 0;

/// Bytes in one page.
pub const PAGE_SIZE: u64 = 4096;

/// Width of the offset inside a page, in bits.
pub const PAGE_SIZE_BITS: u64 = 12;

/// 64-bit words in one page.
pub const PAGE_WORDS: usize = 512;

/// Entries in one page-table node.
pub const TABLE_ENTRIES: usize = 512;

/// One past the largest virtual address of the three-level translation mode
/// (39 bits).
pub const VA_LIMIT: u64 = 0x80_0000_0000;

/// One past the largest virtual page number (27 bits).
pub const VPN_LIMIT: u64 = 0x800_0000;

/// One past the largest physical address (56 bits).
pub const PA_LIMIT: u64 = 0x100_0000_0000_0000;

/// One past the largest physical page number (44 bits).
pub const PPN_LIMIT: u64 = 0x1000_0000_0000;

/// Bytes of user stack given to every process.
pub const USER_STACK_SIZE: u64 = 8192;

/// Bytes of kernel stack given to every hart and every process.
pub const KERNEL_STACK_SIZE: u64 = 8192;

/// Virtual address of the trampoline page: the last page of the address
/// space, the same in every address space.
pub const TRAMPOLINE: u64 = 0xffff_ffff_ffff_f000;

/// Virtual address of the trap-context page of a process, just below the
/// trampoline.
pub const TRAP_CONTEXT: u64 = 0xffff_ffff_ffff_e000;

/// One past the last address a program segment may use. Above it lie a
/// guard page, the user stack, and further up the trap context and the
/// trampoline.
pub const USER_SPACE_END: u64 = 0x40_0000_0000;

/// One past the largest process identifier.
pub const PID_LIMIT: usize = 0x1_0000;

/// End of usable physical memory.
pub const MEMORY_END: u64 = 0x8080_0000;

} // verus!
