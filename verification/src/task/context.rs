//! The saved kernel-mode context of a task.

use vstd::prelude::*;

verus! {

/// What a context switch saves and restores: the return address, the stack
/// pointer and the twelve callee-saved registers.
#[derive(Clone, Copy, Debug, PartialEq, Eq)]
pub struct TaskContext {
    pub ra: u64,
    pub sp: u64,
    pub s: [u64; 12],
}

/// Where a context switch saves the running context.
#[derive(Clone, Copy, Debug, PartialEq, Eq, Structural)]
pub enum ContextSlot {
    /// The saved context of the task with this pid.
    Task(usize),
    /// A context that nothing reads again.
    Scratch,
}

impl TaskContext {
    /// The context with every register zero.
    pub fn zero_init() -> (r: TaskContext)
        ensures
            r.ra == 0,
            r.sp == 0,
            forall|i: int| 0 <= i < 12 ==> r.s[i] == 0,
    {
        TaskContext { ra: 0, sp: 0, s: [0; 12] }
    }

    /// The first context of a task: it resumes at `trap_return` on the
    /// kernel stack that ends at `kstack_ptr`.
    pub fn goto_trap_return(kstack_ptr: u64, trap_return: u64) -> (r: TaskContext)
        ensures
            r.ra == trap_return,
            r.sp == kstack_ptr,
            forall|i: int| 0 <= i < 12 ==> r.s[i] == 0,
    {
        TaskContext { ra: trap_return, sp: kstack_ptr, s: [0; 12] }
    }
}

/// The context switch: saves the running context `live` into `save_into`
/// and makes `resume_from` the running context.
pub fn switch(live: &mut TaskContext, save_into: &mut TaskContext, resume_from: &TaskContext)
    ensures
        *final(save_into) == *old(live),
        *final(live) == *resume_from,
{
    *save_into = *live;
    *live = *resume_from;
}

} // verus!
