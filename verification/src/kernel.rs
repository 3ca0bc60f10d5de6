//! The state of the kernel.
//!
//! All state that the harts share is held in one value. An operation takes
//! it by exclusive reference, so each operation is one indivisible step and
//! the harts' operations happen one after another, in some order.

use vstd::prelude::*;
use crate::config::{CPU_NUM, PID_LIMIT};

use crate::mm::frame_allocator::{
    lemma_allocate_n_adds_up, lemma_allocated_after, FramePool, StackFrameAllocator,
};
use crate::mm::memory_set::{
    holds_zeros, kernel_stack_range, released_areas, MemorySet, PERM_R, PERM_W,
};
use crate::mm::page_table::MapError;
use crate::task::manager::TaskManager;
use crate::task::model::{SchedView, TaskView};
use crate::task::pid::PidAllocator;
use crate::task::processor::Processor;
use crate::mm::plan::{kernel_plans, plans_apart, program_plans, space_frames};
use crate::task::task::{creation_stack_frames, Machine, TaskControlBlock, TaskError};

verus! {

/// The shared state of the kernel.
#[derive(Debug)]
pub struct Kernel {
    /// The pool of physical frames.
    pub frame_allocator: StackFrameAllocator,
    /// The address space of the kernel.
    pub kernel_space: MemorySet,
    /// The pool of process identifiers.
    pub pid_allocator: PidAllocator,
    /// The control blocks of the tasks that exist, by pid.
    pub tasks: Vec<Option<TaskControlBlock>>,
    /// The ready queue.
    pub manager: TaskManager,
    /// One record for each hart, by hart id.
    pub processors: Vec<Processor>,
    /// The pid of the init process, once it exists.
    pub initproc: Option<usize>,
    /// What the kernel is told of the machine.
    pub machine: Machine,
}

impl View for Kernel {
    type V = SchedView;

    /// The scheduling state of the kernel.
    open spec fn view(&self) -> SchedView {
        SchedView {
            tasks: Map::new(
                |pid: usize| pid < self.tasks@.len() && self.tasks@[pid as int] is Some,
                |pid: usize| self.tasks@[pid as int]->0@,
            ),
            ready: self.manager.ready_queue@,
            harts: Seq::new(self.processors@.len(), |h: int| self.processors@[h]@),
            initproc: self.initproc,
        }
    }
}

impl Kernel {
    /// The control block of the task `pid`.
    pub open spec fn task(&self, pid: usize) -> TaskControlBlock {
        self.tasks@[pid as int]->0
    }

    /// The task `pid` holds its own identifier, which a live handle holds,
    /// and its address space is well formed.
    pub open spec fn task_ok(&self, pid: usize) -> bool {
        &&& self.task(pid).pid.0 == pid
        &&& self.task(pid).kernel_stack.pid == pid
        &&& pid < PID_LIMIT
        &&& self.pid_allocator.is_allocated(pid)
        &&& self.task(pid).memory_set.wf()
        &&& self.task(pid).task_status !is Zombie ==> self.task(pid).memory_set.has_trap_page()
        &&& self.task(pid).memory_set.sound_in(self.frame_allocator@)
        &&& forall|p: u64| #[trigger] self.task_owns(pid, p) ==> !self.kernel_space.owns(p)
    }

    /// The address space of the task `pid` owns the frame `ppn`.
    pub open spec fn task_owns(&self, pid: usize, ppn: u64) -> bool {
        self.task(pid).memory_set.owns(ppn)
    }

    /// No frame is owned by the address spaces of two tasks.
    pub open spec fn tasks_apart(&self) -> bool {
        forall|a: usize, b: usize, p: u64|
            self@.live(a) && self@.live(b) && a != b && #[trigger] self.task_owns(a, p)
                ==> !#[trigger] self.task_owns(b, p)
    }

    /// The pools and address spaces are well formed. Every frame of an
    /// address space is handed out by the frame pool, to that address space
    /// alone.
    pub open spec fn resources_wf(&self) -> bool {
        &&& self.frame_allocator.wf()
        &&& self.kernel_space.wf()
        &&& self.kernel_space.sound_in(self.frame_allocator@)
        &&& self.tasks_apart()
        &&& self.pid_allocator.wf()
        &&& self.pid_allocator.limit <= PID_LIMIT
        &&& self.machine.wf()
        &&& forall|pid: usize| self@.live(pid) ==> #[trigger] self.task_ok(pid)
    }

    /// The scheduling state is consistent and the pools and address spaces
    /// are well formed.
    pub open spec fn wf(&self) -> bool {
        &&& self@.wf()
        &&& self.resources_wf()
    }

    /// The pools, the kernel address space and, for every task, all but
    /// what the scheduler changes are as in `before`.
    pub open spec fn same_resources(&self, before: &Kernel) -> bool {
        &&& self.machine == before.machine
        &&& self.frame_allocator == before.frame_allocator
        &&& self.kernel_space == before.kernel_space
        &&& self.pid_allocator == before.pid_allocator
        &&& self.tasks@.len() == before.tasks@.len()
        &&& forall|pid: usize| before@.live(pid) ==> #[trigger] self.task_kept(before, pid)
    }

    /// The task `pid` has the address space and the identity it has in
    /// `before`.
    pub open spec fn task_kept(&self, before: &Kernel, pid: usize) -> bool {
        &&& self.task(pid).memory_set == before.task(pid).memory_set
        &&& self.same_identity(before, pid)
    }

    /// The resources are as in `before` but for the address space of the
    /// task `pid`: its areas are gone, their frames went back to the pool,
    /// and its page table is as it was.
    pub open spec fn recycled_from(&self, before: &Kernel, pid: usize) -> bool {
        &&& self.frame_allocator@ == released_areas(
            before.frame_allocator@,
            before.task(pid).memory_set.areas@,
        )
        &&& self.machine == before.machine
        &&& self.kernel_space == before.kernel_space
        &&& self.pid_allocator == before.pid_allocator
        &&& self.tasks@.len() == before.tasks@.len()
        &&& self.task(pid).memory_set.areas@.len() == 0
        &&& self.task(pid).memory_set.page_table == before.task(pid).memory_set.page_table
        &&& forall|q: usize|
            before@.live(q) ==> #[trigger] self.same_identity(before, q) && (q != pid
                ==> self.task_kept(before, q))
    }

    /// The resources are as in `before` but for what the creation of the
    /// task `pid` from the image `elf_data` took: the identifier `pid` is
    /// held; the pool handed out the frames of the address space of the
    /// task, then those of its kernel stack; the kernel stack is mapped in
    /// the kernel address space; and the task is in its first state, with
    /// the parent `parent`. Every other task is as it was.
    pub open spec fn created_from(
        &self,
        before: &Kernel,
        pid: usize,
        parent: Option<usize>,
        elf_data: Seq<u8>,
    ) -> bool {
        let frames = space_frames(program_plans(elf_data));
        let stack = before.kernel_space.framed_needs(kernel_stack_range(pid));
        &&& self.machine == before.machine
        &&& self.frame_allocator@ == before.frame_allocator@.allocate_n(frames + stack)
        &&& forall|p: u64| #[trigger]
            self.task(pid).memory_set.owns(p) == before.frame_allocator@.hands_out(frames, p)
        &&& self.kernel_space.took(
            &before.kernel_space,
            before.frame_allocator@.allocate_n(frames),
            stack,
        )
        &&& before.pid_allocator.next() == Some(pid)
        &&& self.pid_allocator.is_allocated(pid)
        &&& forall|q: usize|
            q != pid ==> self.pid_allocator.is_allocated(q) == before.pid_allocator.is_allocated(q)
        &&& self.kernel_space.areas@ == before.kernel_space.areas@.push(
            self.kernel_space.areas@.last(),
        )
        &&& holds_zeros(self.kernel_space.areas@.last(), kernel_stack_range(pid), PERM_R | PERM_W)
        &&& self.kernel_space.page_table@ == before.kernel_space.page_table@.union_prefer_right(
            self.kernel_space.areas@.last().entries(),
        )
        &&& self.kernel_space.spec_token() == before.kernel_space.spec_token()
        &&& (TaskControlBlock { parent: None, ..self.task(pid) }).fresh(
            elf_data,
            before.machine,
            before.kernel_space.spec_token(),
        )
        &&& self.task(pid).parent == parent
        &&& forall|q: usize| before@.live(q) ==> #[trigger] self.task_kept(before, q)
    }

    /// The resources are as in `before` but for what the failed creation
    /// of a task from the image `elf_data` left, which ended with the
    /// fault `fault`: tables in the kernel address space, if the frames
    /// ran out while the kernel stack was mapped. Else every frame is
    /// handed out exactly when it was before. The identifiers that live
    /// handles hold, the areas and mappings of the kernel address space and
    /// the tasks are as they were.
    pub open spec fn after_failed_creation(
        &self,
        before: &Kernel,
        elf_data: Seq<u8>,
        fault: Option<TaskError>,
    ) -> bool {
        let frames = space_frames(program_plans(elf_data));
        let tables = creation_stack_frames(&before.pid_allocator, &before.kernel_space, fault);
        &&& self.machine == before.machine
        &&& self.frame_allocator@.same_bounds(before.frame_allocator@)
        &&& forall|p: u64| #[trigger]
            self.frame_allocator@.is_allocated(p) == (before.frame_allocator@.is_allocated(p)
                || before.frame_allocator@.allocate_n(frames).hands_out(tables, p))
        &&& self.kernel_space.took(
            &before.kernel_space,
            before.frame_allocator@.allocate_n(frames),
            tables,
        )
        &&& self.kernel_space.areas@ == before.kernel_space.areas@
        &&& self.kernel_space.page_table@ == before.kernel_space.page_table@
        &&& forall|q: usize| self.pid_allocator.is_allocated(q)
            == before.pid_allocator.is_allocated(q)
        &&& self.tasks == before.tasks
    }

    /// The task `pid` has the identifier, the kernel stack and the trap
    /// context page it has in `before`.
    pub open spec fn same_identity(&self, before: &Kernel, pid: usize) -> bool {
        &&& self.task(pid).pid == before.task(pid).pid
        &&& self.task(pid).kernel_stack == before.task(pid).kernel_stack
        &&& self.task(pid).trap_cx_ppn == before.task(pid).trap_cx_ppn
        &&& self.task(pid).base_size == before.task(pid).base_size
    }

    /// The pool of the frames between the end of the kernel image and the
    /// end of physical memory, all of them free.
    pub open spec fn initial_frames(machine: Machine) -> FramePool {
        let first = ((machine.layout.ekernel + 4095) / 4096) as u64;
        let end = machine.layout.memory_end / 4096;
        FramePool {
            start: first,
            current: first,
            end: if first <= end {
                end
            } else {
                first
            },
            recycled: Seq::empty(),
        }
    }

    /// Sets up the state of the kernel on the machine `machine` with
    /// `harts` harts: the frame pool, the kernel address space, the pool of
    /// process identifiers, and one idle hart record for each hart. No task
    /// exists yet.
    ///
    /// Fails when the kernel address space cannot be built.
    pub fn new(machine: Machine, harts: usize) -> (r: Result<Kernel, MapError>)
        requires
            machine.wf(),
            harts <= CPU_NUM,
        ensures
            match r {
                Ok(_) => plans_apart(kernel_plans(machine.layout, harts))
                    && Self::initial_frames(machine).free_count() >= space_frames(
                    kernel_plans(machine.layout, harts),
                ),
                Err(MapError::AlreadyMapped) => !plans_apart(kernel_plans(machine.layout, harts)),
                Err(MapError::OutOfMemory) => Self::initial_frames(machine).free_count()
                    < space_frames(kernel_plans(machine.layout, harts)),
                Err(_) => false,
            },
            r matches Ok(kernel) ==> {
                &&& kernel.wf()
                &&& kernel.machine == machine
                &&& kernel@.tasks == Map::<usize, TaskView>::empty()
                &&& kernel@.ready == Seq::<usize>::empty()
                &&& kernel@.initproc is None
                &&& kernel@.harts.len() == harts
                &&& forall|h: int|
                    0 <= h < harts ==> (#[trigger] kernel@.harts[h]).current is None
                        && !kernel@.harts[h].in_task
                &&& kernel.frame_allocator@ == Self::initial_frames(machine).allocate_n(
                    space_frames(kernel_plans(machine.layout, harts)),
                )
                &&& kernel.kernel_space.built_from(
                    kernel_plans(machine.layout, harts),
                    Seq::empty(),
                    machine.trampoline,
                )
                &&& forall|p: u64| #[trigger]
                    kernel.kernel_space.owns(p) == Self::initial_frames(machine).hands_out(
                        space_frames(kernel_plans(machine.layout, harts)),
                        p,
                    )
                &&& kernel.pid_allocator.current == 0
                &&& kernel.pid_allocator.limit == PID_LIMIT
                &&& kernel.pid_allocator.recycled@.len() == 0
            },
    {
        let mut frame_allocator = StackFrameAllocator::new();
        crate::mm::allocator_init(&mut frame_allocator, &machine.layout);
        let kernel_space = match MemorySet::new_kernel(
            &mut frame_allocator,
            &machine.layout,
            machine.trampoline,
            harts,
        ) {
            Ok(space) => space,
            Err(e) => {
                return Err(e);
            },
        };
        let mut processors: Vec<Processor> = Vec::new();
        let mut h: usize = 0;
        while h < harts
            invariant
                h <= harts,
                processors@.len() == h,
                forall|g: int|
                    0 <= g < h ==> (#[trigger] processors@[g]).current is None
                        && !processors@[g].in_task,
            decreases harts - h,
        {
            processors.push(Processor::new());
            h = h + 1;
        }
        let kernel = Kernel {
            frame_allocator,
            kernel_space,
            pid_allocator: PidAllocator::new(PID_LIMIT),
            tasks: Vec::new(),
            manager: TaskManager::new(),
            processors,
            initproc: None,
            machine,
        };
        proof {
            assert(kernel@.tasks =~= Map::<usize, TaskView>::empty());
            assert forall|g: int| 0 <= g < kernel@.harts.len() implies #[trigger] kernel@.hart_ok(
                g,
            ) by {}
        }
        Ok(kernel)
    }
}

/// A kernel whose pools, kernel address space and address spaces of tasks
/// are those of a kernel with well-formed resources, with the same tasks,
/// none of which became a zombie or ceased to be one, has well-formed
/// resources.
pub proof fn lemma_kept_resources(before: Kernel, after: Kernel)
    requires
        before.resources_wf(),
        after.same_resources(&before),
        forall|q: usize| after@.live(q) == before@.live(q),
        forall|q: usize|
            before@.live(q) ==> (#[trigger] after.task(q).task_status is Zombie)
                == (before.task(q).task_status is Zombie),
    ensures
        after.resources_wf(),
{
    assert forall|q: usize| after@.live(q) implies #[trigger] after.task_ok(q) by {
        assert(before@.live(q));
        assert(before.task_ok(q));
        assert(after.task_kept(&before, q));
        assert((after.task(q).task_status is Zombie) == (before.task(q).task_status is Zombie));
        assert forall|p: u64| #[trigger] after.task_owns(q, p) implies !after.kernel_space.owns(
            p,
        ) by {
            assert(before.task_owns(q, p));
        }
    }
    assert forall|a: usize, b: usize, p: u64|
        after@.live(a) && after@.live(b) && a != b && #[trigger] after.task_owns(
            a,
            p,
        ) implies !#[trigger] after.task_owns(b, p) by {
        assert(after.task_kept(&before, a));
        assert(after.task_kept(&before, b));
        assert(before.task_owns(a, p));
        if after.task_owns(b, p) {
            assert(before.task_owns(b, p));
        }
    }
}

/// A kernel in which the address space of one task changed what a frame
/// holds, and nothing else changed, has well-formed resources if it had
/// them before.
pub proof fn lemma_rewritten_resources(before: Kernel, after: Kernel, pid: usize)
    requires
        before.resources_wf(),
        before@.live(pid),
        after.machine == before.machine,
        after.frame_allocator == before.frame_allocator,
        after.kernel_space == before.kernel_space,
        after.pid_allocator == before.pid_allocator,
        forall|q: usize| after@.live(q) == before@.live(q),
        forall|q: usize| before@.live(q) && q != pid ==> #[trigger] after.task(q) == before.task(q),
        after.same_identity(&before, pid),
        after.task(pid).task_status == before.task(pid).task_status,
        after.task(pid).memory_set.wf(),
        after.task(pid).memory_set.has_trap_page(),
        after.task(pid).memory_set.page_table == before.task(pid).memory_set.page_table,
        forall|p: u64| #[trigger]
            after.task(pid).memory_set.owns_data(p) == before.task(pid).memory_set.owns_data(p),
    ensures
        after.resources_wf(),
{
    assert forall|q: usize, p: u64|
        before@.live(q) implies after.task_owns(q, p) == before.task_owns(q, p) by {
        if q != pid {
            assert(after.task(q) == before.task(q));
        } else {
            assert(after.task(pid).memory_set.owns_data(p) == before.task(
                pid,
            ).memory_set.owns_data(p));
        }
    }
    assert forall|q: usize| after@.live(q) implies #[trigger] after.task_ok(q) by {
        assert(before@.live(q));
        assert(before.task_ok(q));
        if q != pid {
            assert(after.task(q) == before.task(q));
        } else {
            let now = after.task(pid).memory_set;
            let then = before.task(pid).memory_set;
            assert forall|p: u64| #[trigger] now.owns(p) implies
                after.frame_allocator@.is_allocated(
                p,
            ) by {
                assert(now.owns_data(p) == then.owns_data(p));
                assert(then.owns(p));
            }
            assert forall|p: u64|
                !(#[trigger] now.page_table.ppns().contains(p) && now.owns_data(p)) by {
                assert(now.owns_data(p) == then.owns_data(p));
                assert(!(then.page_table.ppns().contains(p) && then.owns_data(p)));
            }
        }
        assert forall|p: u64| #[trigger] after.task_owns(q, p) implies !after.kernel_space.owns(
            p,
        ) by {
            assert(before.task_owns(q, p));
        }
    }
    assert forall|a: usize, b: usize, p: u64|
        after@.live(a) && after@.live(b) && a != b && #[trigger] after.task_owns(
            a,
            p,
        ) implies !#[trigger] after.task_owns(b, p) by {
        assert(before.task_owns(a, p));
        if after.task_owns(b, p) {
            assert(before.task_owns(b, p));
        }
    }
}

/// A kernel in which the frames of the areas of one task went back to the
/// pool, and that task became a zombie without areas, has well-formed
/// resources if it had them before.
pub proof fn lemma_recycled_resources(before: Kernel, after: Kernel, pid: usize)
    requires
        before.resources_wf(),
        before@.live(pid),
        after.machine == before.machine,
        after.kernel_space == before.kernel_space,
        after.pid_allocator == before.pid_allocator,
        after.frame_allocator.wf(),
        forall|p: u64| #[trigger]
            after.frame_allocator@.is_allocated(p) == (before.frame_allocator@.is_allocated(p)
                && !before.task(pid).memory_set.owns_data(p)),
        forall|q: usize| after@.live(q) == before@.live(q),
        forall|q: usize| before@.live(q) && q != pid ==> #[trigger] after.task_kept(&before, q),
        forall|q: usize|
            before@.live(q) && q != pid ==> (#[trigger] after.task(q).task_status is Zombie) == (
            before.task(q).task_status is Zombie),
        after.same_identity(&before, pid),
        after.task(pid).task_status is Zombie,
        after.task(pid).memory_set.wf(),
        after.task(pid).memory_set.sound_in(after.frame_allocator@),
        forall|p: u64| #[trigger] after.task_owns(pid, p) ==> before.task_owns(pid, p),
    ensures
        after.resources_wf(),
{
    assert(before.task_ok(pid));
    assert forall|p: u64| #[trigger] after.kernel_space.owns(p) implies
        after.frame_allocator@.is_allocated(
        p,
    ) by {
        if before.task(pid).memory_set.owns_data(p) {
            assert(before.task_owns(pid, p));
        }
    }
    assert forall|q: usize| after@.live(q) implies #[trigger] after.task_ok(q) by {
        assert(before@.live(q));
        assert(before.task_ok(q));
        if q != pid {
            assert(after.task_kept(&before, q));
            assert((after.task(q).task_status is Zombie) == (before.task(q).task_status is Zombie));
            assert forall|p: u64| #[trigger]
                after.task(q).memory_set.owns(p) implies after.frame_allocator@.is_allocated(
                p,
            ) by {
                assert(before.task_owns(q, p));
                if before.task(pid).memory_set.owns_data(p) {
                    assert(before.task_owns(pid, p));
                }
            }
        }
        assert forall|p: u64| #[trigger] after.task_owns(q, p) implies !after.kernel_space.owns(
            p,
        ) by {
            assert(before.task_owns(q, p));
        }
    }
    assert forall|a: usize, b: usize, p: u64|
        after@.live(a) && after@.live(b) && a != b && #[trigger] after.task_owns(
            a,
            p,
        ) implies !#[trigger] after.task_owns(b, p) by {
        if a != pid {
            assert(after.task_kept(&before, a));
        }
        if b != pid {
            assert(after.task_kept(&before, b));
        }
        assert(before.task_owns(a, p));
        if after.task_owns(b, p) {
            assert(before.task_owns(b, p));
        }
    }
}

/// A kernel in which the pool handed out frames, of which the first
/// `frames` went to the address space of a new task, if there is one, and
/// the next `stack` to the kernel address space, has well-formed resources
/// if it had them before.
pub proof fn lemma_grown_resources(
    before: Kernel,
    after: Kernel,
    frames: nat,
    stack: nat,
    created: Option<usize>,
)
    requires
        before.resources_wf(),
        after.machine == before.machine,
        after.frame_allocator.wf(),
        after.pid_allocator.wf(),
        after.pid_allocator.limit == before.pid_allocator.limit,
        forall|p: u64| #[trigger]
            before.frame_allocator@.is_allocated(p) ==> after.frame_allocator@.is_allocated(p),
        after.kernel_space.wf(),
        after.kernel_space.sound_in(after.frame_allocator@),
        after.kernel_space.took(
            &before.kernel_space,
            before.frame_allocator@.allocate_n(frames),
            stack,
        ),
        forall|q: usize| after@.live(q) == (before@.live(q) || Some(q) == created),
        forall|q: usize| before@.live(q) ==> #[trigger] after.task_kept(&before, q),
        forall|q: usize|
            before@.live(q) ==> (#[trigger] after.task(q).task_status is Zombie)
                == (before.task(q).task_status is Zombie),
        forall|q: usize|
            before@.live(q) ==> #[trigger] after.pid_allocator.is_allocated(q),
        created matches Some(pid) ==> {
            &&& !before@.live(pid)
            &&& after.task(pid).pid.0 == pid
            &&& after.task(pid).kernel_stack.pid == pid
            &&& pid < PID_LIMIT
            &&& after.pid_allocator.is_allocated(pid)
            &&& after.task(pid).memory_set.wf()
            &&& after.task(pid).memory_set.has_trap_page()
            &&& after.task(pid).memory_set.sound_in(after.frame_allocator@)
            &&& forall|p: u64| #[trigger]
                after.task(pid).memory_set.owns(p) == before.frame_allocator@.hands_out(frames, p)
        },
    ensures
        after.resources_wf(),
{
    let pool = before.frame_allocator@;
    let loaded = pool.allocate_n(frames);
    lemma_allocate_n_adds_up(pool, frames, 0);
    assert forall|q: usize| after@.live(q) implies #[trigger] after.task_ok(q) by {
        if before@.live(q) {
            assert(before.task_ok(q));
            assert(after.task_kept(&before, q));
            assert((after.task(q).task_status is Zombie) == (before.task(q).task_status is Zombie));
            assert(after.pid_allocator.is_allocated(q));
            assert forall|p: u64| #[trigger] after.task_owns(q, p) implies !after.kernel_space.owns(
                p,
            ) by {
                assert(before.task_owns(q, p));
                lemma_allocated_after(pool, frames, p);
                lemma_allocated_after(loaded, stack, p);
            }
        } else {
            assert forall|p: u64| #[trigger] after.task_owns(q, p) implies !after.kernel_space.owns(
                p,
            ) by {
                lemma_allocated_after(pool, frames, p);
                lemma_allocated_after(loaded, stack, p);
                assert(before.kernel_space.owns(p) ==> pool.is_allocated(p));
            }
        }
    }
    assert forall|a: usize, b: usize, p: u64|
        after@.live(a) && after@.live(b) && a != b && #[trigger] after.task_owns(
            a,
            p,
        ) implies !#[trigger] after.task_owns(b, p) by {
        lemma_allocated_after(pool, frames, p);
        if before@.live(a) {
            assert(after.task_kept(&before, a));
            assert(before.task_ok(a));
            assert(before.task_owns(a, p));
        }
        if before@.live(b) {
            assert(after.task_kept(&before, b));
            assert(before.task_ok(b));
            if after.task_owns(b, p) {
                assert(before.task_owns(b, p));
            }
        }
    }
}

} // verus!
