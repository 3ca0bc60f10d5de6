//! Tasks and their scheduling.

pub mod context;
pub mod manager;
pub mod model;
pub mod pid;
pub mod processor;
pub mod task;

use vstd::prelude::*;
use crate::kernel::{
    lemma_grown_resources, lemma_kept_resources, lemma_recycled_resources, Kernel,
};
use crate::mm::frame_allocator::lemma_allocated_grows;
use crate::mm::plan::{program_plans, space_frames};
use crate::task::context::ContextSlot;
use crate::task::manager::add_task;
use crate::task::model::{
    law_create_keeps_wf, law_exit_hands_children_to_init, lemma_reparent_step, SchedView,
    TaskStatus, TaskView,
};
use crate::task::processor::{schedule, take_current_task};
use crate::task::task::{can_create, creation_fault, fault_of, TaskControlBlock, TaskError};

verus! {

/// The task on `hart` gives up the hart: it becomes ready, goes to the tail
/// of the ready queue, and the hart switches to its idle loop, saving the
/// context of the task in the task.
pub fn suspend_current_and_run_next(kernel: &mut Kernel, hart: usize)
    requires
        old(kernel).wf(),
        old(kernel)@.can_yield(hart as int),
    ensures
        final(kernel).wf(),
        final(kernel)@ == old(kernel)@.suspend(hart as int),
        final(kernel).same_resources(old(kernel)),
{
    let ghost s = old(kernel)@;
    proof {
        lemma_suspend_marks_ready(s, hart as int);
        assert(s.hart_ok(hart as int));
    }
    let pid = take_current_task(kernel, hart).unwrap();
    let ghost taken = *kernel;
    match &mut kernel.tasks[pid] {
        Some(task) => {
            task.task_status = TaskStatus::Ready;
        },
        None => {
            assert(false);
        },
    }
    let ghost marked = *kernel;
    proof {
        let expected = s.take_current(hart as int).with_status(pid, TaskStatus::Ready);
        assert(kernel@.harts =~= expected.harts);
        assert(kernel@.tasks =~= expected.tasks);
        assert(kernel@ == expected);
        assert forall|q: usize| taken@.live(q) implies #[trigger] kernel.task_kept(&taken, q) by {}
        assert forall|q: usize| kernel@.live(q) == taken@.live(q) by {}
        assert forall|q: usize| taken@.live(q) implies (
        #[trigger] kernel.task(q).task_status is Zombie)
            == (taken.task(q).task_status is Zombie) by {
            assert(taken@.tasks[q].status == taken.task(q).task_status);
            assert(s.tasks[q].status == taken@.tasks[q].status);
        }
        lemma_kept_resources(taken, *kernel);
    }
    add_task(kernel, pid);
    let ghost queued = *kernel;
    schedule(kernel, hart, ContextSlot::Task(pid));
    proof {
        assert forall|q: usize| old(kernel)@.live(q) implies #[trigger] kernel.task_kept(
            old(kernel),
            q,
        ) by {
            assert(taken.task_kept(old(kernel), q));
            assert(marked.task_kept(&taken, q));
            assert(queued.task_kept(&marked, q));
            assert(kernel.task_kept(&queued, q));
        }
    }
}

/// When the task on a hart was taken from the hart and marked ready, the
/// state is consistent, and the task may be queued.
proof fn lemma_suspend_marks_ready(s: SchedView, hart: int)
    requires
        s.wf(),
        s.can_yield(hart),
    ensures
        s.take_current(hart).with_status(s.harts[hart].current->0, TaskStatus::Ready).wf(),
        s.take_current(hart).with_status(s.harts[hart].current->0, TaskStatus::Ready).can_add(
            s.harts[hart].current->0,
        ),
{
    let pid = s.harts[hart].current->0;
    let a = s.take_current(hart);
    let b = a.with_status(pid, TaskStatus::Ready);
    assert(s.hart_ok(hart));
    assert forall|h: int| 0 <= h < b.harts.len() implies #[trigger] b.hart_ok(h) by {
        assert(s.hart_ok(h));
        if h != hart {
            assert(s.harts[hart].current != s.harts[h].current);
        }
    }
    assert forall|q: usize| b.live(q) implies #[trigger] b.links_ok(q) by {
        assert(s.links_ok(q));
        if s.tasks[q].parent is Some {
            assert(b.tasks[s.tasks[q].parent->0].children
                == s.tasks[s.tasks[q].parent->0].children);
        }
    }
    assert forall|i: int| 0 <= i < b.ready.len() implies #[trigger] b.queued_ok(i) by {
        assert(s.queued_ok(i));
        assert(s.ready.contains(s.ready[i]));
    }
    assert forall|h: int| 0 <= h < b.harts.len() implies (#[trigger] b.harts[h]).current != Some(
        pid,
    ) by {
        if h != hart {
            assert(s.harts[hart].current != s.harts[h].current);
        }
    }
}

/// The task on `hart` exits with `exit_code`.
///
/// The task leaves the hart for good and becomes a zombie that keeps its
/// exit code. Each of its children gets the init process as parent and is
/// added to the children of the init process, in the order in which the
/// task listed them; the task is left without children. The frames of its
/// address space go back to the pool; its page table stays. Then the hart
/// switches to its idle loop; the context of the task is saved nowhere.
///
/// A task that has children can exit only if an init process exists and
/// is another task.
#[verifier::rlimit(40)]
pub fn exit_current_and_run_next(kernel: &mut Kernel, hart: usize, exit_code: i32)
    requires
        old(kernel).wf(),
        old(kernel)@.can_exit(hart as int),
    ensures
        final(kernel).wf(),
        final(kernel)@ == old(kernel)@.exit(hart as int, exit_code),
        final(kernel).recycled_from(old(kernel), old(kernel)@.current(hart as int)->0),
{
    let ghost s = old(kernel)@;
    proof {
        law_exit_hands_children_to_init(s, hart as int, exit_code);
        assert(s.hart_ok(hart as int));
    }
    let pid = kernel.processors[hart].take_current().unwrap();
    let n = match &mut kernel.tasks[pid] {
        Some(task) => {
            task.task_status = TaskStatus::Zombie;
            task.exit_code = exit_code;
            task.children.len()
        },
        None => {
            assert(false);
            0
        },
    };
    let ghost init_pid = if s.initproc is Some {
        s.initproc->0
    } else {
        pid
    };
    let ghost kids = s.tasks[pid].children;
    proof {
        assert(kids.subrange(0, 0) =~= Seq::<usize>::empty());
        assert(s.tasks[init_pid].children + Seq::<usize>::empty() =~= s.tasks[init_pid].children);
        assert(kernel@.tasks =~= s.reparented(pid, exit_code, init_pid, 0));
    }
    if n > 0 {
        let init = kernel.initproc.unwrap();
        let mut i: usize = 0;
        while i < n
            invariant
                0 <= i <= n,
                n == kids.len(),
                hart < kernel.processors@.len(),
                hart < old(kernel).processors@.len(),
                init == init_pid,
                init != pid,
                s == old(kernel)@,
                s.wf(),
                s.live(pid),
                s.live(init),
                s.tasks[init].parent is None,
                kids == s.tasks[pid].children,
                kernel@.tasks == s.reparented(pid, exit_code, init, i as int),
                kernel.tasks@.len() == old(kernel).tasks@.len(),
                kernel.frame_allocator == old(kernel).frame_allocator,
                kernel.kernel_space == old(kernel).kernel_space,
                kernel.pid_allocator == old(kernel).pid_allocator,
                kernel.manager == old(kernel).manager,
                kernel.initproc == old(kernel).initproc,
                kernel.machine == old(kernel).machine,
                kernel.processors@ == old(kernel).processors@.update(
                    hart as int,
                    kernel.processors@[hart as int],
                ),
                kernel.processors@[hart as int]@ == s.take_current(hart as int).harts[hart as int],
                forall|q: usize| s.live(q) ==> #[trigger] kernel.task_kept(old(kernel), q),
            decreases n - i,
        {
            proof {
                lemma_reparent_step(s, pid, exit_code, init, i as int);
            }
            let ghost before = kernel@.tasks;
            let ghost entry = *kernel;
            proof {
                assert(before.dom().contains(pid));
                assert(before[pid].children == kids);
                assert(before.dom().contains(init));
                assert(before.dom().contains(kids[i as int]));
            }
            let child = match &kernel.tasks[pid] {
                Some(task) => task.children[i],
                None => {
                    assert(false);
                    0
                },
            };
            match &mut kernel.tasks[child] {
                Some(task) => {
                    task.parent = Some(init);
                },
                None => {
                    assert(false);
                },
            }
            match &mut kernel.tasks[init] {
                Some(task) => {
                    task.children.push(child);
                },
                None => {
                    assert(false);
                },
            }
            proof {
                assert(kernel@.tasks =~= before.insert(
                    child,
                    TaskView { parent: Some(init), ..before[child] },
                ).insert(
                    init,
                    TaskView { children: before[init].children.push(child), ..before[init] },
                ));
                assert forall|q: usize| s.live(q) implies #[trigger] kernel.task_kept(
                    old(kernel),
                    q,
                ) by {
                    assert(entry.task_kept(old(kernel), q));
                }
            }
            i = i + 1;
        }
    }
    let ghost moved = kernel@.tasks;
    let ghost entry = *kernel;
    proof {
        assert(old(kernel).task_ok(pid));
        assert(moved.dom().contains(pid));
        assert forall|q: usize| s.live(q) implies #[trigger] entry.task_kept(old(kernel), q) by {}
        assert(entry.task_kept(old(kernel), pid));
    }
    match &mut kernel.tasks[pid] {
        Some(task) => {
            task.children.clear();
            task.memory_set.recycle_data_pages(&mut kernel.frame_allocator);
        },
        None => {
            assert(false);
        },
    }
    proof {
        let r = s.retire(hart as int, exit_code);
        assert(kernel@.tasks =~= moved.insert(
            pid,
            TaskView { children: Seq::empty(), ..moved[pid] },
        ));
        assert(kernel@.harts =~= r.harts);
        assert(kernel@ == r);
        assert forall|q: usize| kernel@.live(q) == s.live(q) by {}
        assert forall|q: usize| s.live(q) && q != pid implies #[trigger] kernel.task_kept(
            old(kernel),
            q,
        ) by {
            assert(entry.task_kept(old(kernel), q));
        }
        assert forall|q: usize| s.live(q) && q != pid implies (
        #[trigger] kernel.task(q).task_status is Zombie)
            == (old(kernel).task(q).task_status is Zombie) by {
            assert(kernel@.tasks[q].status == kernel.task(q).task_status);
            assert(s.tasks[q].status == old(kernel).task(q).task_status);
            assert(r.tasks[q].status == s.tasks[q].status);
        }
        assert(kernel@.tasks[pid].status == kernel.task(pid).task_status);
        assert(entry.task_kept(old(kernel), pid));
        assert forall|p: u64| #[trigger] kernel.task_owns(pid, p) implies old(kernel).task_owns(
            pid,
            p,
        ) by {}
        lemma_recycled_resources(*old(kernel), *kernel, pid);
    }
    let ghost mid = *kernel;
    schedule(kernel, hart, ContextSlot::Scratch);
    proof {
        assert(old(kernel)@.current(hart as int) == Some(pid));
        assert(mid.recycled_from(old(kernel), pid)) by {
            assert forall|q: usize| old(kernel)@.live(q) implies #[trigger] mid.same_identity(
                old(kernel),
                q,
            ) && (q != pid ==> mid.task_kept(old(kernel), q)) by {
                assert(entry.task_kept(old(kernel), q));
            }
        }
        lemma_scheduled_after_recycling(*old(kernel), mid, *kernel, pid);
    }
}

/// What holds of the resources after the address space of a task was
/// recycled still holds after an operation that left the resources as
/// they were.
proof fn lemma_scheduled_after_recycling(before: Kernel, mid: Kernel, after: Kernel, pid: usize)
    requires
        before@.live(pid),
        mid.recycled_from(&before, pid),
        after.same_resources(&mid),
        forall|q: usize| mid@.live(q) == before@.live(q),
    ensures
        after.recycled_from(&before, pid),
{
    assert(mid@.live(pid));
    assert(after.task_kept(&mid, pid));
    assert forall|q: usize| before@.live(q) implies #[trigger] after.same_identity(&before, q) && (
    q != pid ==> after.task_kept(&before, q)) by {
        assert(mid@.live(q));
        assert(after.task_kept(&mid, q));
        assert(mid.same_identity(&before, q));
    }
}

/// Creates a task from the program image `elf_data`, as a child of
/// `parent` if one is given, and puts it at the tail of the ready queue.
/// Returns its pid.
///
/// Fails as `TaskControlBlock::new` does; the scheduling state is then as
/// it was.
#[verifier::rlimit(40)]
pub fn create_task(kernel: &mut Kernel, elf_data: &[u8], parent: Option<usize>) -> (r: Result<
    usize,
    TaskError,
>)
    requires
        old(kernel).wf(),
        parent matches Some(p) ==> old(kernel)@.live(p),
    ensures
        final(kernel).wf(),
        fault_of(r) == creation_fault(
            elf_data@,
            old(kernel).frame_allocator@,
            &old(kernel).pid_allocator,
            &old(kernel).kernel_space,
            fault_of(r),
        ),
        r is Ok <==> can_create(
            elf_data@,
            old(kernel).frame_allocator@,
            &old(kernel).pid_allocator,
            &old(kernel).kernel_space,
        ),
        r is Err ==> final(kernel)@ == old(kernel)@ && final(kernel).after_failed_creation(
            old(kernel),
            elf_data@,
            fault_of(r),
        ),
        r matches Ok(pid) ==> {
            &&& old(kernel)@.can_create(pid, parent)
            &&& final(kernel)@ == old(kernel)@.create(pid, parent, final(kernel).task(pid).task_cx)
            &&& final(kernel).created_from(old(kernel), pid, parent, elf_data@)
        },
{
    let ghost s = old(kernel)@;
    let made = TaskControlBlock::new(
        elf_data,
        &mut kernel.frame_allocator,
        &mut kernel.pid_allocator,
        &mut kernel.kernel_space,
        &kernel.machine,
    );
    let ghost frames = space_frames(program_plans(elf_data@));
    proof {
        assert(kernel@ == s);
        assert(old(kernel).kernel_space.sound_in(old(kernel).frame_allocator@));
        assert forall|q: usize| old(kernel)@.live(q) implies #[trigger] kernel.task_kept(
            old(kernel),
            q,
        ) by {}
        assert forall|q: usize|
            old(kernel)@.live(q) implies #[trigger] kernel.pid_allocator.is_allocated(q) by {
            assert(old(kernel).task_ok(q));
        }
    }
    let mut task = match made {
        Ok(task) => task,
        Err(e) => {
            proof {
                let tables = crate::task::task::creation_stack_frames(
                    &old(kernel).pid_allocator,
                    &old(kernel).kernel_space,
                    Some(e),
                );
                lemma_grown_resources(*old(kernel), *kernel, frames, tables, None);
            }
            return Err(e);
        },
    };
    proof {
        lemma_allocated_grows(
            old(kernel).frame_allocator@,
            frames + old(kernel).kernel_space.framed_needs(
                crate::mm::memory_set::kernel_stack_range(task.pid.0),
            ),
        );
    }
    let pid = task.pid.0;
    let ghost first = task;
    proof {
        if s.live(pid) {
            assert(old(kernel).task_ok(pid));
        }
        assert(!s.ready.contains(pid)) by {
            if s.ready.contains(pid) {
                let i = choose|i: int| 0 <= i < s.ready.len() && s.ready[i] == pid;
                assert(s.queued_ok(i));
            }
        }
        assert forall|h: int| 0 <= h < s.harts.len() implies (#[trigger] s.harts[h]).current
            != Some(pid) by {
            assert(s.hart_ok(h));
        }
        law_create_keeps_wf(s, pid, parent, task.task_cx);
    }
    task.parent = parent;
    let ghost loaded = *kernel;
    while kernel.tasks.len() <= pid
        invariant
            kernel@ == s,
            kernel.pid_allocator == loaded.pid_allocator,
            kernel.frame_allocator == loaded.frame_allocator,
            kernel.kernel_space == loaded.kernel_space,
            kernel.tasks@.len() >= old(kernel).tasks@.len(),
            forall|q: int| 0 <= q < old(kernel).tasks@.len()
                ==> kernel.tasks@[q] == old(kernel).tasks@[q],
            kernel.machine == old(kernel).machine,
            kernel.processors == old(kernel).processors,
            kernel.manager == old(kernel).manager,
            kernel.initproc == old(kernel).initproc,
        decreases pid + 1 - kernel.tasks@.len(),
    {
        let ghost before = kernel@;
        kernel.tasks.push(None);
        proof {
            assert(kernel@.tasks =~= before.tasks);
            assert(kernel@.harts =~= before.harts);
        }
    }
    let ghost padded = *kernel;
    kernel.tasks[pid] = Some(task);
    match parent {
        Some(p) => {
            match &mut kernel.tasks[p] {
                Some(parent_task) => {
                    parent_task.children.push(pid);
                },
                None => {
                    assert(false);
                },
            }
        },
        None => {},
    }
    kernel.manager.add(pid);
    proof {
        let t = s.create(pid, parent, first.task_cx);
        assert(padded@ == s);
        assert(first.fresh(elf_data@, old(kernel).machine, old(kernel).kernel_space.spec_token()));
        assert forall|q: usize| kernel@.tasks.dom().contains(q) == t.tasks.dom().contains(q) by {
            assert(padded@.tasks.dom().contains(q) == s.tasks.dom().contains(q));
        }
        assert forall|q: usize| kernel@.tasks.dom().contains(q) implies kernel@.tasks[q]
            == t.tasks[q] by {
            if q == pid {
                assert(kernel@.tasks[q].children =~= Seq::<usize>::empty());
            } else {
                assert(padded@.tasks.dom().contains(q));
                assert(padded@.tasks[q] == s.tasks[q]);
            }
        }
        assert(kernel@.tasks =~= t.tasks);
        assert(kernel@.harts =~= t.harts);
        assert(kernel@ == t);
        assert forall|q: usize| s.live(q) implies #[trigger] kernel.task_kept(old(kernel), q) by {
            assert(padded.tasks@[q as int] == old(kernel).tasks@[q as int]);
        }
        assert(kernel.task(pid) == (TaskControlBlock { parent, ..first }));
        assert forall|q: usize| kernel@.live(q) == (s.live(q) || q == pid) by {}
        assert forall|q: usize| s.live(q) implies (#[trigger] kernel.task(q).task_status is Zombie)
            == (old(kernel).task(q).task_status is Zombie) by {
            assert(kernel@.tasks[q].status == kernel.task(q).task_status);
            assert(s.tasks[q].status == old(kernel).task(q).task_status);
            assert(t.tasks[q].status == s.tasks[q].status);
        }
        assert forall|q: usize| s.live(q) implies #[trigger] kernel.pid_allocator.is_allocated(
            q,
        ) by {
            assert(old(kernel).task_ok(q));
        }
        assert(first.memory_set.holds_program(elf_data@, old(kernel).machine.trampoline));
        assert(kernel.task(pid).memory_set.wf());
        assert(kernel.task(pid).memory_set.has_trap_page());
        lemma_grown_resources(
            *old(kernel),
            *kernel,
            frames,
            old(kernel).kernel_space.framed_needs(crate::mm::memory_set::kernel_stack_range(pid)),
            Some(pid),
        );
        assert((TaskControlBlock { parent: None, ..kernel.task(pid) }) == first);
    }
    Ok(pid)
}

/// Creates the init process from the program image `elf_data` and puts it
/// at the tail of the ready queue. The init process has no parent; it takes
/// over the children of every task that exits. Returns its pid.
///
/// Fails as `create_task` does; the scheduling state is then as it was.
pub fn add_initproc(kernel: &mut Kernel, elf_data: &[u8]) -> (r: Result<usize, TaskError>)
    requires
        old(kernel).wf(),
        old(kernel).initproc is None,
    ensures
        final(kernel).wf(),
        fault_of(r) == creation_fault(
            elf_data@,
            old(kernel).frame_allocator@,
            &old(kernel).pid_allocator,
            &old(kernel).kernel_space,
            fault_of(r),
        ),
        r is Ok <==> can_create(
            elf_data@,
            old(kernel).frame_allocator@,
            &old(kernel).pid_allocator,
            &old(kernel).kernel_space,
        ),
        r is Err ==> final(kernel)@ == old(kernel)@ && final(kernel).after_failed_creation(
            old(kernel),
            elf_data@,
            fault_of(r),
        ),
        r matches Ok(pid) ==> {
            &&& old(kernel)@.can_create(pid, None)
            &&& final(kernel)@ == (SchedView {
                initproc: Some(pid),
                ..old(kernel)@.create(pid, None, final(kernel).task(pid).task_cx)
            })
            &&& final(kernel).created_from(old(kernel), pid, None, elf_data@)
        },
{
    let pid = match create_task(kernel, elf_data, None) {
        Ok(pid) => pid,
        Err(e) => {
            return Err(e);
        },
    };
    let ghost made = *kernel;
    kernel.initproc = Some(pid);
    proof {
        let s = made@;
        let t = kernel@;
        assert(t.tasks =~= s.tasks);
        assert(t.harts =~= s.harts);
        assert(t == (SchedView { initproc: Some(pid), ..s }));
        assert forall|i: int| 0 <= i < t.ready.len() implies #[trigger] t.queued_ok(i) by {
            assert(s.queued_ok(i));
        }
        assert forall|h: int| 0 <= h < t.harts.len() implies #[trigger] t.hart_ok(h) by {
            assert(s.hart_ok(h));
        }
        assert forall|q: usize| t.live(q) implies #[trigger] t.links_ok(q) by {
            assert(s.links_ok(q));
        }
        assert forall|q: usize| made@.live(q) implies #[trigger] kernel.task_kept(&made, q) by {}
        assert forall|q: usize| kernel@.live(q) == made@.live(q) by {}
        lemma_kept_resources(made, *kernel);
        assert forall|q: usize| old(kernel)@.live(q) implies #[trigger] kernel.task_kept(
            old(kernel),
            q,
        ) by {
            assert(made.task_kept(old(kernel), q));
        }
    }
    Ok(pid)
}

} // verus!
