//! The control block of a task.

use vstd::prelude::*;
use crate::config::PID_LIMIT;
use crate::mm::address::PhysPageNum;
use crate::mm::elf::spec_validate;
use crate::mm::frame_allocator::{
    lemma_allocate_n_adds_up, lemma_allocated_after, lemma_hands_out_first,
    lemma_hands_out_in_turn, FramePool, StackFrameAllocator,
};
use crate::mm::memory_set::{
    holds_zeros, kernel_stack_range, lemma_sound_after_more, lemma_sound_after_release,
    program_entry, program_segments, program_stack_top, KernelLayout, LoadError, MemorySet,
    PERM_R, PERM_W,
};
use crate::mm::plan::{lemma_destroyed_restores, program_plans, segments_apart, space_frames};
use crate::mm::page_table::MapError;
use crate::task::context::TaskContext;
use crate::task::model::{TaskStatus, TaskView};
use crate::task::pid::{
    pid_alloc, spec_kernel_stack_position, stack_taken, KernelStack, PidAllocator, PidHandle,
};
use crate::trap::{app_init_words, TrapContext, TRAP_CONTEXT_WORDS};

verus! {

/// What the kernel is told of the machine it runs on.
#[derive(Clone, Copy, Debug, PartialEq, Eq, Structural)]
pub struct Machine {
    /// The bounds of the kernel image and of physical memory.
    pub layout: KernelLayout,
    /// The physical page that holds the trampoline code.
    pub trampoline: PhysPageNum,
    /// The address of the trap handler.
    pub trap_handler: u64,
    /// The address at which a new task starts in the kernel: the return
    /// from a trap.
    pub trap_return: u64,
    /// The status register as the harts hold it.
    pub sstatus: u64,
}

impl Machine {
    /// The addresses and the page number are within their widths.
    pub open spec fn wf(&self) -> bool {
        &&& self.layout.wf()
        &&& self.trampoline.wf()
    }
}

/// Why a task could not be created.
#[derive(Clone, Copy, Debug, PartialEq, Eq, Structural)]
pub enum TaskError {
    /// The program could not be loaded.
    Load(LoadError),
    /// No process identifier is left.
    NoPid,
    /// The kernel stack could not be mapped.
    Stack(MapError),
}

/// A task can be created from the image `elf_data`: the image is well
/// formed, no two of its segments share a page, an identifier is left, no
/// page of the kernel stack of that identifier is mapped, and the pool has
/// the frames for the address space and the kernel stack.
pub open spec fn can_create(
    elf_data: Seq<u8>,
    pool: FramePool,
    pids: &PidAllocator,
    kernel_space: &MemorySet,
) -> bool {
    &&& spec_validate(elf_data) is Ok
    &&& segments_apart(program_segments(elf_data))
    &&& pids.next() is Some
    &&& !kernel_space.meets_mapping(kernel_stack_range(pids.next()->0))
    &&& pool.free_count() >= space_frames(program_plans(elf_data)) + kernel_space.framed_needs(
        kernel_stack_range(pids.next()->0),
    )
}

/// The fault that the creation of a task from the image `elf_data` ends
/// with, or none, where `seen` is the fault it ended with. A malformed
/// image gives its fault. Else, if the address space cannot be built, the
/// fault is one of the two faults of building it, each only for its own
/// cause; else the lack of an identifier; else the fault of mapping the
/// kernel stack; else there is none.
pub open spec fn creation_fault(
    elf_data: Seq<u8>,
    pool: FramePool,
    pids: &PidAllocator,
    kernel_space: &MemorySet,
    seen: Option<TaskError>,
) -> Option<TaskError> {
    let frames = space_frames(program_plans(elf_data));
    if spec_validate(elf_data) is Err {
        Some(TaskError::Load(LoadError::Image(spec_validate(elf_data)->Err_0)))
    } else if !segments_apart(program_segments(elf_data)) || pool.free_count() < frames {
        if seen == Some(TaskError::Load(LoadError::Space(MapError::AlreadyMapped)))
            && !segments_apart(program_segments(elf_data)) {
            seen
        } else if pool.free_count() < frames {
            Some(TaskError::Load(LoadError::Space(MapError::OutOfMemory)))
        } else {
            Some(TaskError::Load(LoadError::Space(MapError::AlreadyMapped)))
        }
    } else if pids.next() is None {
        Some(TaskError::NoPid)
    } else if kernel_space.meets_mapping(kernel_stack_range(pids.next()->0)) {
        Some(TaskError::Stack(MapError::AlreadyMapped))
    } else if pool.free_count() - frames < kernel_space.framed_needs(
        kernel_stack_range(pids.next()->0),
    ) {
        Some(TaskError::Stack(MapError::OutOfMemory))
    } else {
        None
    }
}

/// The fault of a result, if it is one.
pub open spec fn fault_of<T>(r: Result<T, TaskError>) -> Option<TaskError> {
    match r {
        Ok(_) => None,
        Err(e) => Some(e),
    }
}

/// How many frames the kernel address space took for the kernel stack of
/// a task whose creation ended with `r`: none if the creation did not get
/// as far, else what the mapping of the kernel stack took.
pub open spec fn creation_stack_frames(
    pids: &PidAllocator,
    kernel_space: &MemorySet,
    fault: Option<TaskError>,
) -> nat {
    match fault {
        None => kernel_space.framed_needs(kernel_stack_range(pids.next()->0)),
        Some(TaskError::Stack(MapError::OutOfMemory)) => kernel_space.page_table.tables_needed(
            kernel_stack_range(pids.next()->0).start.0 as int,
            kernel_stack_range(pids.next()->0).end.0 as int,
        ),
        Some(_) => 0,
    }
}

/// Giving back what an address space took from a pool, after something
/// else took more, leaves handed out what was handed out before and what
/// the other took.
pub proof fn lemma_destroyed_after_more(
    before: FramePool,
    taken: nat,
    more: nat,
    space: MemorySet,
    after: FramePool,
)
    requires
        before.wf(),
        forall|p: u64| #[trigger] space.owns(p) == before.hands_out(taken, p),
        forall|p: u64| #[trigger]
            after.is_allocated(p) == (before.allocate_n(taken + more).is_allocated(p)
                && !space.owns(p)),
    ensures
        forall|p: u64| #[trigger]
            after.is_allocated(p) == (before.is_allocated(p)
                || before.allocate_n(taken).hands_out(more, p)),
{
    assert forall|p: u64| #[trigger]
        after.is_allocated(p) == (before.is_allocated(p) || before.allocate_n(taken).hands_out(
            more,
            p,
        )) by {
        lemma_allocate_n_adds_up(before, taken, more);
        lemma_allocated_after(before, taken + more, p);
        lemma_allocated_after(before, taken, p);
        lemma_allocated_after(before.allocate_n(taken), more, p);
        lemma_hands_out_in_turn(before, taken, more, p);
        assert(space.owns(p) == before.hands_out(taken, p));
    }
}

/// Everything the kernel holds of one task.
///
/// The changing part of a control block is reached through the exclusive
/// reference to the kernel state that holds it.
#[derive(Debug)]
pub struct TaskControlBlock {
    /// The identifier of the task.
    pub pid: PidHandle,
    /// The stack the task uses in kernel mode.
    pub kernel_stack: KernelStack,
    /// The physical page that holds the trap context.
    pub trap_cx_ppn: PhysPageNum,
    /// The size of the program image and user stack, in bytes from address
    /// zero.
    pub base_size: u64,
    /// The saved kernel-mode context.
    pub task_cx: TaskContext,
    /// Where the task is in its life.
    pub task_status: TaskStatus,
    /// The address space of the task.
    pub memory_set: MemorySet,
    /// The pid of the parent; it does not keep the parent alive.
    pub parent: Option<usize>,
    /// The pids of the children.
    pub children: Vec<usize>,
    /// The exit code, once the task is a zombie.
    pub exit_code: i32,
}

impl View for TaskControlBlock {
    type V = TaskView;

    /// The task as the scheduler sees it.
    open spec fn view(&self) -> TaskView {
        TaskView {
            status: self.task_status,
            exit_code: self.exit_code,
            parent: self.parent,
            children: self.children@,
            task_cx: self.task_cx,
        }
    }
}

impl TaskControlBlock {
    /// The words of the trap context of the task.
    pub open spec fn trap_words(&self) -> Seq<u64> {
        self.memory_set.trap_frame().words@.subrange(0, TRAP_CONTEXT_WORDS as int)
    }

    /// The task is as `new` makes it from the image `elf_data` on the
    /// machine `machine` with the kernel token `kernel_token`: ready,
    /// without parent and children, in an address space that holds the
    /// program, with a trap context that starts the program and a kernel
    /// context that returns from a trap on the kernel stack of the task.
    pub open spec fn fresh(&self, elf_data: Seq<u8>, machine: Machine, kernel_token: u64) -> bool {
        let stack_top = spec_kernel_stack_position(self.pid.0).1;
        &&& self.kernel_stack.pid == self.pid.0
        &&& self.task_status is Ready
        &&& self.exit_code == 0
        &&& self.parent is None
        &&& self.children@.len() == 0
        &&& self.task_cx.ra == machine.trap_return
        &&& self.task_cx.sp == stack_top
        &&& forall|i: int| 0 <= i < 12 ==> self.task_cx.s[i] == 0
        &&& self.base_size == program_stack_top(elf_data)
        &&& self.memory_set.holds_program(elf_data, machine.trampoline)
        &&& self.trap_cx_ppn == self.memory_set.trap_frame().ppn
        &&& self.trap_words() == app_init_words(
            program_entry(elf_data),
            program_stack_top(elf_data),
            kernel_token,
            stack_top,
            machine.trap_handler,
            machine.sstatus,
        )
    }

    /// Creates a task from the program image `elf_data`.
    ///
    /// Builds the address space of the program, takes a process identifier
    /// and maps the kernel stack that belongs to it in `kernel_space`, and
    /// writes the first trap context. The task is ready.
    ///
    /// Fails with the fault of the image if the image is malformed. Else
    /// it succeeds exactly when the address space can be built, an
    /// identifier is left, and the kernel stack can be mapped; else it
    /// fails with what went wrong first. After a failure the address space
    /// is given back, the identifiers that live handles hold are as they
    /// were, and the kernel address space has the areas and mappings it
    /// had; only tables that were created for the kernel stack stay.
    pub fn new(
        elf_data: &[u8],
        pool: &mut StackFrameAllocator,
        pids: &mut PidAllocator,
        kernel_space: &mut MemorySet,
        machine: &Machine,
    ) -> (r: Result<TaskControlBlock, TaskError>)
        requires
            old(pool).wf(),
            old(pids).wf(),
            old(pids).limit <= PID_LIMIT,
            old(kernel_space).wf(),
            machine.wf(),
        ensures
            final(pool).wf(),
            final(pool)@.same_bounds(old(pool)@),
            final(pids).wf(),
            final(pids).limit == old(pids).limit,
            final(kernel_space).wf(),
            final(kernel_space).page_table.root_ppn() == old(kernel_space).page_table.root_ppn(),
            fault_of(r) == creation_fault(
                elf_data@,
                old(pool)@,
                old(pids),
                old(kernel_space),
                fault_of(r),
            ),
            r is Ok <==> can_create(elf_data@, old(pool)@, old(pids), old(kernel_space)),
            spec_validate(elf_data@) is Err ==> final(pool)@ == old(pool)@
                && *final(pids) == *old(pids),
            r is Err ==> {
                &&& final(kernel_space).areas@ == old(kernel_space).areas@
                &&& final(kernel_space).page_table@ == old(kernel_space).page_table@
                &&& forall|q: usize| final(pids).is_allocated(q) == old(pids).is_allocated(q)
            },
            final(kernel_space).took(
                old(kernel_space),
                old(pool)@.allocate_n(space_frames(program_plans(elf_data@))),
                creation_stack_frames(old(pids), old(kernel_space), fault_of(r)),
            ),
            r is Err ==> forall|p: u64| #[trigger]
                final(pool)@.is_allocated(p) == (old(pool)@.is_allocated(p)
                    || old(pool)@.allocate_n(space_frames(program_plans(elf_data@))).hands_out(
                    creation_stack_frames(old(pids), old(kernel_space), fault_of(r)),
                    p,
                )),
            old(kernel_space).sound_in(old(pool)@) ==> final(kernel_space).sound_in(final(pool)@),
            r matches Ok(task) ==> task.memory_set.sound_in(final(pool)@),
            r matches Ok(task) ==> {
                &&& old(pids).next() == Some(task.pid.0)
                &&& !old(pids).is_allocated(task.pid.0)
                &&& final(pids).is_allocated(task.pid.0)
                &&& forall|q: usize|
                    q != task.pid.0 ==> final(pids).is_allocated(q) == old(pids).is_allocated(q)
                &&& task.pid.0 < PID_LIMIT
                &&& task.fresh(elf_data@, *machine, old(kernel_space).spec_token())
                &&& final(kernel_space).areas@ == old(kernel_space).areas@.push(
                    final(kernel_space).areas@.last(),
                )
                &&& holds_zeros(
                    final(kernel_space).areas@.last(),
                    kernel_stack_range(task.pid.0),
                    PERM_R | PERM_W,
                )
                &&& final(kernel_space).page_table@
                    == old(kernel_space).page_table@.union_prefer_right(
                    final(kernel_space).areas@.last().entries(),
                )
                &&& final(pool)@ == old(pool)@.allocate_n(
                    space_frames(program_plans(elf_data@)) + old(kernel_space).framed_needs(
                        kernel_stack_range(task.pid.0),
                    ),
                )
                &&& forall|p: u64| #[trigger]
                    task.memory_set.owns(p) == old(pool)@.hands_out(
                        space_frames(program_plans(elf_data@)),
                        p,
                    )
            },
    {
        let ghost frames = space_frames(program_plans(elf_data@));
        proof {
            lemma_allocate_n_adds_up(pool@, frames, 0);
            assert forall|p: u64| !(#[trigger] pool@.allocate_n(frames).hands_out(0, p)) by {
                lemma_hands_out_first(pool@.allocate_n(frames), p);
            }
            assert forall|p: u64| !(#[trigger] pool@.hands_out(0, p)) by {
                lemma_hands_out_first(pool@, p);
            }
        }
        let (memory_set, user_sp, entry) = match MemorySet::from_elf(
            pool,
            elf_data,
            machine.trampoline,
        ) {
            Ok(loaded) => loaded,
            Err(e) => {
                proof {
                    if old(kernel_space).sound_in(old(pool)@) {
                        lemma_sound_after_release(*old(kernel_space), old(pool)@, pool@);
                    }
                }
                return Err(TaskError::Load(e));
            },
        };
        proof {
            if old(kernel_space).sound_in(old(pool)@) {
                lemma_sound_after_more(*old(kernel_space), old(pool)@, frames);
            }
        }
        let mut memory_set = memory_set;
        let ghost loaded = memory_set;
        let pid = match pid_alloc(pids) {
            Some(pid) => pid,
            None => {
                memory_set.destroy(pool);
                proof {
                    lemma_destroyed_restores(old(pool)@, frames, loaded, pool@);
                    if old(kernel_space).sound_in(old(pool)@) {
                        lemma_sound_after_release(*old(kernel_space), old(pool)@, pool@);
                    }
                }
                return Err(TaskError::NoPid);
            },
        };
        let kernel_token = kernel_space.token();
        let ghost pool_loaded = pool@;
        let kernel_stack = match KernelStack::new(&pid, kernel_space, pool) {
            Ok(stack) => stack,
            Err(e) => {
                let ghost extra = stack_taken(
                    old(kernel_space),
                    pid.0,
                    Err::<KernelStack, MapError>(e),
                );
                let ghost with_tables = pool@;
                memory_set.destroy(pool);
                let _ = pids.dealloc(pid);
                proof {
                    lemma_allocate_n_adds_up(old(pool)@, frames, extra);
                    assert(with_tables == old(pool)@.allocate_n(frames + extra));
                    lemma_destroyed_after_more(old(pool)@, frames, extra, loaded, pool@);
                    if old(kernel_space).sound_in(old(pool)@) {
                        assert forall|p: u64| #[trigger] kernel_space.owns(p) implies
                            pool@.is_allocated(
                            p,
                        ) == with_tables.is_allocated(p) by {
                            lemma_allocated_after(old(pool)@, frames, p);
                            lemma_allocated_after(old(pool)@.allocate_n(frames), extra, p);
                            assert(loaded.owns(p) == old(pool)@.hands_out(frames, p));
                            assert(old(kernel_space).owns(p) ==> old(pool)@.is_allocated(p));
                        }
                        lemma_sound_after_release(*kernel_space, with_tables, pool@);
                    }
                }
                return Err(TaskError::Stack(e));
            },
        };
        proof {
            lemma_allocate_n_adds_up(
                old(pool)@,
                frames,
                old(kernel_space).framed_needs(kernel_stack_range(pid.0)),
            );
            lemma_sound_after_more(
                loaded,
                pool_loaded,
                old(kernel_space).framed_needs(kernel_stack_range(pid.0)),
            );
        }
        let stack_top = kernel_stack.get_top();
        let cx = TrapContext::app_init_context(
            entry,
            user_sp,
            kernel_token,
            stack_top,
            machine.trap_handler,
            machine.sstatus,
        );
        memory_set.store_trap_context(&cx);
        proof {
            let plans = program_plans(elf_data@);
            assert forall|k: int| 0 <= k < plans.len() - 1 implies (#[trigger] plans[k]).built(
                memory_set.areas@[k],
                elf_data@,
            ) by {
                assert(plans[k].built(loaded.areas@[k], elf_data@));
                assert(memory_set.areas@[k] == loaded.areas@[k]);
            }
            assert forall|p: u64| #[trigger]
                memory_set.owns_data(p) == loaded.owns_data(p) by {
                if memory_set.owns_data(p) {
                    let (i, j) = choose|i: int, j: int|
                        0 <= i < memory_set.areas@.len() && 0 <= j
                            < memory_set.areas@[i].data_frames@.len() && (
                        #[trigger] memory_set.areas@[i].data_frames@[j]).ppn.0 == p;
                    if i < memory_set.areas@.len() - 1 {
                        assert(loaded.areas@[i].data_frames@[j].ppn.0 == p);
                    } else {
                        assert(loaded.area_ok(i));
                        assert(j == 0);
                        assert(loaded.areas@[i].data_frames@[0].ppn.0 == p);
                    }
                }
                if loaded.owns_data(p) {
                    let (i, j) = choose|i: int, j: int|
                        0 <= i < loaded.areas@.len() && 0 <= j < loaded.areas@[i].data_frames@.len()
                            && (#[trigger] loaded.areas@[i].data_frames@[j]).ppn.0 == p;
                    if i < loaded.areas@.len() - 1 {
                        assert(memory_set.areas@[i].data_frames@[j].ppn.0 == p);
                    } else {
                        assert(loaded.area_ok(i));
                        assert(memory_set.area_ok(i));
                        assert(j == 0);
                        assert(memory_set.areas@[i].data_frames@[0].ppn.0 == p);
                    }
                }
            }
        }
        let last = memory_set.areas.len() - 1;
        proof {
            assert(memory_set.area_ok(last as int));
            assert forall|p: u64| #[trigger]
                memory_set.owns(p) == old(pool)@.hands_out(frames, p) by {
                assert(loaded.owns(p) == old(pool)@.hands_out(frames, p));
                assert(memory_set.owns_data(p) == loaded.owns_data(p));
            }
        }
        let trap_cx_ppn = memory_set.areas[last].data_frames[0].ppn;
        Ok(
            TaskControlBlock {
                pid,
                kernel_stack,
                trap_cx_ppn,
                base_size: user_sp,
                task_cx: TaskContext::goto_trap_return(stack_top, machine.trap_return),
                task_status: TaskStatus::Ready,
                memory_set,
                parent: None,
                children: Vec::new(),
                exit_code: 0,
            },
        )
    }

    /// The identifier of the task.
    pub fn getpid(&self) -> (pid: usize)
        ensures
            pid == self.pid.0,
    {
        self.pid.0
    }

    /// The token of the address space of the task.
    pub fn get_user_token(&self) -> (token: u64)
        requires
            self.memory_set.wf(),
        ensures
            token == self.memory_set.spec_token(),
    {
        self.memory_set.token()
    }

    /// Whether the task is a zombie.
    pub fn is_zombie(&self) -> (r: bool)
        ensures
            r == (self.task_status is Zombie),
    {
        match self.task_status {
            TaskStatus::Zombie => true,
            _ => false,
        }
    }
}

} // verus!
