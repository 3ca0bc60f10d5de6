//! The trap context: the user-mode state of a task, saved in a page of its
//! address space while the task is in the kernel.

use vstd::prelude::*;
use crate::mm::frame_allocator::FrameTracker;

verus! {

/// Number of 64-bit words a trap context takes at the start of its page.
pub const TRAP_CONTEXT_WORDS: usize = 37;

/// The bit of the status register that holds the privilege level a trap
/// came from; clear means user mode.
pub const SSTATUS_SPP: u64 = 0x100;

/// The saved user-mode state of a task, and what the trap entry needs to
/// get into the kernel.
#[derive(Clone, Copy, Debug, PartialEq, Eq)]
pub struct TrapContext {
    /// The 32 general registers.
    pub x: [u64; 32],
    /// The status register.
    pub sstatus: u64,
    /// The address to resume at.
    pub sepc: u64,
    /// The token of the kernel address space.
    pub kernel_satp: u64,
    /// The top of the kernel stack of the task.
    pub kernel_sp: u64,
    /// The address of the trap handler.
    pub trap_handler: u64,
}

/// The words of the first context of a task: it starts in user mode at
/// `entry`, with the stack pointer `sp` and every other general register
/// zero.
pub open spec fn app_init_words(
    entry: u64,
    sp: u64,
    kernel_satp: u64,
    kernel_sp: u64,
    trap_handler: u64,
    sstatus: u64,
) -> Seq<u64> {
    Seq::new(32, |i: int| 0u64).update(2, sp) + seq![
        sstatus & !SSTATUS_SPP,
        entry,
        kernel_satp,
        kernel_sp,
        trap_handler,
    ]
}

impl TrapContext {
    /// The context as the words it takes in its page: the general
    /// registers, then the status register, the resume address, the kernel
    /// token, the kernel stack pointer and the trap handler.
    pub open spec fn words(&self) -> Seq<u64> {
        self.x@ + seq![self.sstatus, self.sepc, self.kernel_satp, self.kernel_sp, self.trap_handler]
    }

    /// The first context of a task: it starts in user mode at `entry`, with
    /// the stack pointer `sp` and every other general register zero.
    /// `sstatus` is the status register as the hart holds it now.
    pub fn app_init_context(
        entry: u64,
        sp: u64,
        kernel_satp: u64,
        kernel_sp: u64,
        trap_handler: u64,
        sstatus: u64,
    ) -> (r: TrapContext)
        ensures
            r.x@ == Seq::new(32, |i: int| 0u64).update(2, sp),
            r.sstatus == sstatus & !SSTATUS_SPP,
            r.sepc == entry,
            r.kernel_satp == kernel_satp,
            r.kernel_sp == kernel_sp,
            r.trap_handler == trap_handler,
            r.words() == app_init_words(entry, sp, kernel_satp, kernel_sp, trap_handler, sstatus),
    {
        let mut x: [u64; 32] = [0; 32];
        x[2] = sp;
        proof {
            assert(x@ =~= Seq::new(32, |i: int| 0u64).update(2, sp));
        }
        TrapContext {
            x,
            sstatus: sstatus & !SSTATUS_SPP,
            sepc: entry,
            kernel_satp,
            kernel_sp,
            trap_handler,
        }
    }

    /// Sets the user stack pointer.
    pub fn set_sp(&mut self, sp: u64)
        ensures
            final(self).x@ == old(self).x@.update(2, sp),
            final(self).sstatus == old(self).sstatus,
            final(self).sepc == old(self).sepc,
            final(self).kernel_satp == old(self).kernel_satp,
            final(self).kernel_sp == old(self).kernel_sp,
            final(self).trap_handler == old(self).trap_handler,
    {
        self.x[2] = sp;
        proof {
            assert(self.x@ =~= old(self).x@.update(2, sp));
        }
    }

    /// Writes the context to the start of the page of `frame`. The rest of
    /// the page stays.
    pub fn store(&self, frame: &mut FrameTracker)
        requires
            old(frame).wf(),
        ensures
            final(frame).wf(),
            final(frame).ppn == old(frame).ppn,
            final(frame).words@ == self.words() + old(frame).words@.subrange(
                TRAP_CONTEXT_WORDS as int,
                old(frame).words@.len() as int,
            ),
    {
        let mut i: usize = 0;
        assert(self.x@.len() == 32);
        assert(frame.words@ =~= self.x@.subrange(0, 0) + old(frame).words@.subrange(
            0,
            old(frame).words@.len() as int,
        ));
        while i < 32
            invariant
                i <= 32,
                self.x@.len() == 32,
                old(frame).wf(),
                frame.wf(),
                frame.ppn == old(frame).ppn,
                frame.words@ == self.x@.subrange(0, i as int) + old(frame).words@.subrange(
                    i as int,
                    old(frame).words@.len() as int,
                ),
            decreases 32 - i,
        {
            frame.words[i] = self.x[i];
            proof {
                assert(frame.words@ =~= self.x@.subrange(0, i + 1) + old(frame).words@.subrange(
                    i + 1,
                    old(frame).words@.len() as int,
                ));
            }
            i = i + 1;
        }
        frame.words[32] = self.sstatus;
        frame.words[33] = self.sepc;
        frame.words[34] = self.kernel_satp;
        frame.words[35] = self.kernel_sp;
        frame.words[36] = self.trap_handler;
        proof {
            assert(frame.words@ =~= self.words() + old(frame).words@.subrange(
                TRAP_CONTEXT_WORDS as int,
                old(frame).words@.len() as int,
            ));
        }
    }

    /// Reads the context at the start of the page of `frame`.
    pub fn load(frame: &FrameTracker) -> (r: TrapContext)
        requires
            frame.wf(),
        ensures
            r.words() == frame.words@.subrange(0, TRAP_CONTEXT_WORDS as int),
    {
        let mut x: [u64; 32] = [0; 32];
        let mut i: usize = 0;
        while i < 32
            invariant
                i <= 32,
                frame.wf(),
                forall|k: int| 0 <= k < i ==> x@[k] == frame.words@[k],
            decreases 32 - i,
        {
            x[i] = frame.words[i];
            i = i + 1;
        }
        let r = TrapContext {
            x,
            sstatus: frame.words[32],
            sepc: frame.words[33],
            kernel_satp: frame.words[34],
            kernel_sp: frame.words[35],
            trap_handler: frame.words[36],
        };
        proof {
            assert(r.words() =~= frame.words@.subrange(0, TRAP_CONTEXT_WORDS as int));
        }
        r
    }
}

/// A context is its words: two contexts with the same words are the same
/// context. So what is read from a page is what was written to it last.
pub proof fn law_context_is_its_words(a: TrapContext, b: TrapContext)
    requires
        a.words() == b.words(),
    ensures
        a.x@ == b.x@,
        a.sstatus == b.sstatus,
        a.sepc == b.sepc,
        a.kernel_satp == b.kernel_satp,
        a.kernel_sp == b.kernel_sp,
        a.trap_handler == b.trap_handler,
{
    assert(a.x@.len() == 32 && b.x@.len() == 32);
    assert forall|i: int| 0 <= i < 32 implies a.x@[i] == b.x@[i] by {
        assert(a.words()[i] == a.x@[i]);
        assert(b.words()[i] == b.x@[i]);
    }
    assert(a.x@ =~= b.x@);
    assert(a.words()[32] == a.sstatus && b.words()[32] == b.sstatus);
    assert(a.words()[33] == a.sepc && b.words()[33] == b.sepc);
    assert(a.words()[34] == a.kernel_satp && b.words()[34] == b.kernel_satp);
    assert(a.words()[35] == a.kernel_sp && b.words()[35] == b.kernel_sp);
    assert(a.words()[36] == a.trap_handler && b.words()[36] == b.trap_handler);
}

} // verus!
