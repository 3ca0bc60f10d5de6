//! The per-hart scheduler state and the scheduling operations.

use vstd::prelude::*;
use crate::kernel::{lemma_kept_resources, lemma_rewritten_resources, Kernel};
use crate::task::context::{switch, ContextSlot, TaskContext};
use crate::trap::TrapContext;
use crate::task::model::{
    law_dispatch_keeps_wf, law_release_keeps_wf, law_schedule_keeps_wf, HartView, TaskStatus,
};

verus! {

/// What the scheduler keeps for one hart.
#[derive(Debug)]
pub struct Processor {
    /// The task bound to the hart.
    pub current: Option<usize>,
    /// The saved context of the idle loop.
    pub idle_task_cx: TaskContext,
    /// The context the hart executes in.
    pub registers: TaskContext,
    /// Whether the hart executes a task, rather than its idle loop.
    pub in_task: bool,
}

impl View for Processor {
    type V = HartView;

    /// The hart as the scheduler sees it.
    open spec fn view(&self) -> HartView {
        HartView {
            current: self.current,
            idle_task_cx: self.idle_task_cx,
            registers: self.registers,
            in_task: self.in_task,
        }
    }
}

impl Processor {
    /// The record of a hart that is in its idle loop, without a task, all
    /// registers zero.
    pub fn new() -> (r: Processor)
        ensures
            r.current is None,
            !r.in_task,
            r.idle_task_cx == r.registers,
            r.registers.ra == 0,
            r.registers.sp == 0,
            forall|i: int| 0 <= i < 12 ==> r.registers.s[i] == 0,
    {
        let zero = TaskContext::zero_init();
        Processor { current: None, idle_task_cx: zero, registers: zero, in_task: false }
    }

    /// Takes the task bound to the hart, leaving none.
    pub fn take_current(&mut self) -> (r: Option<usize>)
        ensures
            r == old(self).current,
            final(self)@ == (HartView { current: None, ..old(self)@ }),
    {
        self.current.take()
    }

    /// The task bound to the hart.
    pub fn current(&self) -> (r: Option<usize>)
        ensures
            r == self.current,
    {
        self.current
    }
}

/// Takes the task bound to `hart` from it.
pub fn take_current_task(kernel: &mut Kernel, hart: usize) -> (r: Option<usize>)
    requires
        old(kernel).wf(),
        old(kernel)@.is_hart(hart as int),
    ensures
        final(kernel).wf(),
        r == old(kernel)@.current(hart as int),
        final(kernel)@ == old(kernel)@.take_current(hart as int),
        final(kernel).same_resources(old(kernel)),
{
    let r = kernel.processors[hart].take_current();
    proof {
        let s = old(kernel)@;
        let t = s.take_current(hart as int);
        assert(kernel@.harts =~= t.harts);
        assert(kernel@.tasks =~= t.tasks);
        assert(kernel@ == t);
        assert forall|h: int| 0 <= h < t.harts.len() implies #[trigger] t.hart_ok(h) by {
            assert(s.hart_ok(h));
        }
        assert forall|q: usize| t.live(q) implies #[trigger] t.links_ok(q) by {
            assert(s.links_ok(q));
        }
        assert forall|i: int| 0 <= i < t.ready.len() implies #[trigger] t.queued_ok(i) by {
            assert(s.queued_ok(i));
        }
        assert forall|q: usize| old(kernel)@.live(q) implies #[trigger] kernel.task_kept(
            old(kernel),
            q,
        ) by {}
        assert forall|q: usize| kernel@.live(q) == old(kernel)@.live(q) by {}
        lemma_kept_resources(*old(kernel), *kernel);
    }
    r
}

/// The task bound to `hart`.
pub fn current_task(kernel: &Kernel, hart: usize) -> (r: Option<usize>)
    requires
        kernel@.is_hart(hart as int),
    ensures
        r == kernel@.current(hart as int),
{
    kernel.processors[hart].current()
}

/// The token of the address space of the task bound to `hart`.
pub fn current_user_token(kernel: &Kernel, hart: usize) -> (token: u64)
    requires
        kernel.wf(),
        kernel@.is_hart(hart as int),
        kernel@.current(hart as int) is Some,
    ensures
        token == kernel.task(kernel@.current(hart as int)->0).memory_set.spec_token(),
{
    let pid = kernel.processors[hart].current().unwrap();
    proof {
        assert(kernel@.hart_ok(hart as int));
        assert(kernel.task_ok(pid));
    }
    match &kernel.tasks[pid] {
        Some(task) => task.get_user_token(),
        None => {
            assert(false);
            0
        },
    }
}

/// One round of the idle loop of `hart`.
///
/// First the task that switched back to the idle loop, if one is still
/// bound to the hart, leaves the hart; it goes to the tail of the ready
/// queue if it is ready. Then the head of the ready queue, if there is one,
/// is bound to the hart and marked running, and the hart switches from its
/// idle context to the saved context of the task. Returns the task the hart
/// now executes; `None` means that no task was ready.
pub fn run_tasks(kernel: &mut Kernel, hart: usize) -> (r: Option<usize>)
    requires
        old(kernel).wf(),
        old(kernel)@.can_run(hart as int),
    ensures
        final(kernel).wf(),
        final(kernel)@ == old(kernel)@.run_tasks(hart as int),
        r == old(kernel)@.release(hart as int).head(),
        final(kernel).same_resources(old(kernel)),
{
    let ghost s = old(kernel)@;
    proof {
        law_release_keeps_wf(s, hart as int);
        law_dispatch_keeps_wf(s.release(hart as int), hart as int);
        assert(s.hart_ok(hart as int));
    }
    match kernel.processors[hart].take_current() {
        Some(pid) => {
            let ready = match &kernel.tasks[pid] {
                Some(task) => match task.task_status {
                    TaskStatus::Ready => true,
                    _ => false,
                },
                None => false,
            };
            if ready {
                kernel.manager.add(pid);
            }
        },
        None => {},
    }
    let ghost released = kernel@;
    proof {
        assert(released.harts =~= s.release(hart as int).harts);
        assert(released.tasks =~= s.release(hart as int).tasks);
        assert(released == s.release(hart as int));
    }
    let r = match kernel.manager.fetch() {
        Some(pid) => {
            proof {
                assert(released.queued_ok(0));
            }
            let cx = match &mut kernel.tasks[pid] {
                Some(task) => {
                    task.task_status = TaskStatus::Running;
                    task.task_cx
                },
                None => {
                    assert(false);
                    TaskContext::zero_init()
                },
            };
            let processor = &mut kernel.processors[hart];
            processor.current = Some(pid);
            switch(&mut processor.registers, &mut processor.idle_task_cx, &cx);
            processor.in_task = true;
            Some(pid)
        },
        None => None,
    };
    proof {
        let t = released.dispatch(hart as int);
        assert(kernel@.harts =~= t.harts);
        assert(kernel@.tasks =~= t.tasks);
        assert(kernel@.ready =~= t.ready);
        assert(kernel@ == t);
        assert forall|q: usize| old(kernel)@.live(q) implies #[trigger] kernel.task_kept(
            old(kernel),
            q,
        ) by {}
        assert forall|q: usize| kernel@.live(q) == old(kernel)@.live(q) by {}
        lemma_kept_resources(*old(kernel), *kernel);
        assert forall|q: usize| old(kernel)@.live(q) implies #[trigger] kernel.task_kept(
            old(kernel),
            q,
        ) by {}
    }
    r
}

/// Switches `hart` from the running context to its idle context, saving the
/// running context in `slot`. This is the one way back into the idle loop.
pub fn schedule(kernel: &mut Kernel, hart: usize, slot: ContextSlot)
    requires
        old(kernel).wf(),
        old(kernel)@.is_hart(hart as int),
    ensures
        final(kernel).wf(),
        final(kernel)@ == old(kernel)@.schedule(hart as int, slot),
        final(kernel).same_resources(old(kernel)),
{
    let ghost s = old(kernel)@;
    proof {
        law_schedule_keeps_wf(s, hart as int, slot);
    }
    let processor = &mut kernel.processors[hart];
    let idle = processor.idle_task_cx;
    let mut scratch = TaskContext::zero_init();
    match slot {
        ContextSlot::Task(pid) => {
            if pid < kernel.tasks.len() {
                match &mut kernel.tasks[pid] {
                    Some(task) => {
                        switch(&mut processor.registers, &mut task.task_cx, &idle);
                    },
                    None => {
                        switch(&mut processor.registers, &mut scratch, &idle);
                    },
                }
            } else {
                switch(&mut processor.registers, &mut scratch, &idle);
            }
        },
        ContextSlot::Scratch => {
            switch(&mut processor.registers, &mut scratch, &idle);
        },
    }
    processor.in_task = false;
    proof {
        let t = s.schedule(hart as int, slot);
        assert(kernel@.harts =~= t.harts);
        assert(kernel@.tasks =~= t.tasks);
        assert(kernel@ == t);
        assert forall|q: usize| old(kernel)@.live(q) implies #[trigger] kernel.task_kept(
            old(kernel),
            q,
        ) by {}
        assert forall|q: usize| kernel@.live(q) == old(kernel)@.live(q) by {}
        lemma_kept_resources(*old(kernel), *kernel);
        assert forall|q: usize| old(kernel)@.live(q) implies #[trigger] kernel.task_kept(
            old(kernel),
            q,
        ) by {}
    }
}

/// The trap context of the task that `hart` executes.
pub fn current_trap_cx(kernel: &Kernel, hart: usize) -> (cx: TrapContext)
    requires
        kernel.wf(),
        kernel@.can_yield(hart as int),
    ensures
        cx.words() == kernel.task(kernel@.current(hart as int)->0).trap_words(),
{
    let pid = kernel.processors[hart].current().unwrap();
    proof {
        assert(kernel@.hart_ok(hart as int));
        assert(kernel.task_ok(pid));
        assert(kernel@.tasks[pid].status == kernel.task(pid).task_status);
    }
    match &kernel.tasks[pid] {
        Some(task) => task.memory_set.load_trap_context(),
        None => {
            assert(false);
            TrapContext::app_init_context(0, 0, 0, 0, 0, 0)
        },
    }
}

/// Replaces the trap context of the task that `hart` executes by `cx`.
/// Nothing else changes.
pub fn set_current_trap_cx(kernel: &mut Kernel, hart: usize, cx: &TrapContext)
    requires
        old(kernel).wf(),
        old(kernel)@.can_yield(hart as int),
    ensures
        final(kernel).wf(),
        final(kernel)@ == old(kernel)@,
        final(kernel).task(old(kernel)@.current(hart as int)->0).trap_words() == cx.words(),
        final(kernel).machine == old(kernel).machine,
        final(kernel).frame_allocator == old(kernel).frame_allocator,
        final(kernel).kernel_space == old(kernel).kernel_space,
        final(kernel).pid_allocator == old(kernel).pid_allocator,
        forall|q: usize|
            old(kernel)@.live(q) ==> #[trigger] final(kernel).same_identity(old(kernel), q) && (q
                != old(kernel)@.current(hart as int)->0 ==> final(kernel).task_kept(
                old(kernel),
                q,
            )),
{
    let pid = kernel.processors[hart].current().unwrap();
    proof {
        assert(kernel@.hart_ok(hart as int));
        assert(kernel.task_ok(pid));
        assert(kernel@.tasks[pid].status == kernel.task(pid).task_status);
    }
    match &mut kernel.tasks[pid] {
        Some(task) => {
            task.memory_set.store_trap_context(cx);
        },
        None => {
            assert(false);
        },
    }
    proof {
        assert(kernel@.tasks =~= old(kernel)@.tasks);
        assert(kernel@.harts =~= old(kernel)@.harts);
        assert forall|q: usize| kernel@.live(q) == old(kernel)@.live(q) by {}
        assert forall|q: usize| old(kernel)@.live(q) && q != pid implies #[trigger] kernel.task(
            q,
        ) == old(kernel).task(q) by {}
        lemma_rewritten_resources(*old(kernel), *kernel, pid);
    }
}

/// The pid and the exit code of each child of the task `pid` that is a
/// zombie, in the order in which the task lists its children.
pub fn zombie_children(kernel: &Kernel, pid: usize) -> (r: Vec<(usize, i32)>)
    requires
        kernel.wf(),
        kernel@.live(pid),
    ensures
        r@ == kernel@.zombies_among(kernel@.tasks[pid].children),
{
    let mut found: Vec<(usize, i32)> = Vec::new();
    match &kernel.tasks[pid] {
        Some(task) => {
            let ghost kids = task.children@;
            proof {
                assert(kernel@.links_ok(pid));
                assert(kernel@.tasks[pid].children == kids);
            }
            let mut i: usize = 0;
            while i < task.children.len()
                invariant
                    i <= kids.len(),
                    kids == task.children@,
                    kernel@.tasks[pid].children == kids,
                    kernel@.links_ok(pid),
                    found@ == kernel@.zombies_among(kids.subrange(0, i as int)),
                decreases kids.len() - i,
            {
                let child = task.children[i];
                proof {
                    assert(kernel@.live(kids[i as int]));
                    assert(kids.subrange(0, i + 1).drop_last() =~= kids.subrange(0, i as int));
                    assert(kids.subrange(0, i + 1).last() == child);
                }
                match &kernel.tasks[child] {
                    Some(child_task) => {
                        if child_task.is_zombie() {
                            found.push((child, child_task.exit_code));
                        }
                    },
                    None => {
                        assert(false);
                    },
                }
                i = i + 1;
            }
            proof {
                assert(kids.subrange(0, kids.len() as int) =~= kids);
            }
        },
        None => {
            assert(false);
        },
    }
    found
}

} // verus!
