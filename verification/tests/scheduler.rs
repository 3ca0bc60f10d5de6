use os::config::{PAGE_SIZE, USER_STACK_SIZE};
use os::kernel::Kernel;
use os::mm::address::PhysPageNum;
use os::mm::elf::{ElfError, PF_R, PF_X, PT_LOAD};
use os::mm::memory_set::{KernelLayout, LoadError};
use os::mm::page_table::MapError;
use os::task::context::{switch, ContextSlot, TaskContext};
use os::task::manager::{add_task, fetch_task, TaskManager};
use os::task::model::TaskStatus;
use os::task::pid::kernel_stack_position;
use os::task::processor::{
    current_task, current_trap_cx, current_user_token, run_tasks, schedule, set_current_trap_cx,
    take_current_task, zombie_children, Processor,
};
use os::task::task::{Machine, TaskError};
use os::task::{add_initproc, create_task, exit_current_and_run_next, suspend_current_and_run_next};
use os::trap::TrapContext;

fn machine(memory_end: u64) -> Machine {
    Machine {
        layout: KernelLayout {
            stext: 0x8020_0000,
            etext: 0x8020_3000,
            srodata: 0x8020_3000,
            erodata: 0x8020_4000,
            sdata: 0x8020_4000,
            edata: 0x8020_5000,
            sbss: 0x8020_5000,
            ebss: 0x8020_9000,
            ekernel: 0x8020_9000,
            memory_end,
        },
        trampoline: PhysPageNum(0x80201),
        trap_handler: 0x8020_1230,
        trap_return: 0x8020_1450,
        sstatus: 0x8000_0002_0000_0122,
    }
}

fn boot(harts: usize) -> Kernel {
    Kernel::new(machine(0x8030_0000), harts).unwrap()
}

fn app(entry: u64) -> Vec<u8> {
    let mut b = vec![0u8; 64 + 56];
    b[0..4].copy_from_slice(&[0x7f, b'E', b'L', b'F']);
    b[4] = 2;
    b[5] = 1;
    b[24..32].copy_from_slice(&entry.to_le_bytes());
    b[32..40].copy_from_slice(&64u64.to_le_bytes());
    b[54..56].copy_from_slice(&56u16.to_le_bytes());
    b[56..58].copy_from_slice(&1u16.to_le_bytes());
    b[64..68].copy_from_slice(&PT_LOAD.to_le_bytes());
    b[68..72].copy_from_slice(&(PF_R | PF_X).to_le_bytes());
    b[72..80].copy_from_slice(&120u64.to_le_bytes());
    b[80..88].copy_from_slice(&0x1_0000u64.to_le_bytes());
    b[96..104].copy_from_slice(&4u64.to_le_bytes());
    b[104..112].copy_from_slice(&0x1000u64.to_le_bytes());
    b.extend([0x13, 0, 0, 0]);
    b
}

fn free(kernel: &Kernel) -> u64 {
    let p = &kernel.frame_allocator;
    p.recycled.len() as u64 + (p.end - p.current)
}

fn status(kernel: &Kernel, pid: usize) -> TaskStatus {
    kernel.tasks[pid].as_ref().unwrap().task_status
}

fn parent(kernel: &Kernel, pid: usize) -> Option<usize> {
    kernel.tasks[pid].as_ref().unwrap().parent
}

fn children(kernel: &Kernel, pid: usize) -> Vec<usize> {
    kernel.tasks[pid].as_ref().unwrap().children.clone()
}

fn ready(kernel: &Kernel) -> Vec<usize> {
    kernel.manager.ready_queue.iter().copied().collect()
}

fn sentinel(seed: u64) -> TaskContext {
    let mut s = [0u64; 12];
    for (i, r) in s.iter_mut().enumerate() {
        *r = seed.wrapping_mul(0x9e37_79b9_7f4a_7c15).wrapping_add(i as u64);
    }
    TaskContext { ra: seed ^ 0xdead_beef, sp: !seed, s }
}

#[test]
fn new_processor_is_idle() {
    let mut p = Processor::new();
    assert_eq!(p.current(), None);
    assert_eq!(p.take_current(), None);
    assert!(!p.in_task);
    assert_eq!(p.registers, TaskContext::zero_init());
    assert_eq!(p.idle_task_cx, TaskContext { ra: 0, sp: 0, s: [0; 12] });
    p.current = Some(3);
    assert_eq!(p.current(), Some(3));
    assert_eq!(p.take_current(), Some(3));
    assert_eq!(p.current(), None);
}

#[test]
fn switch_saves_and_resumes() {
    let mut live = sentinel(1);
    let mut slot = sentinel(2);
    let next = sentinel(3);
    switch(&mut live, &mut slot, &next);
    assert_eq!(slot, sentinel(1));
    assert_eq!(live, sentinel(3));
    assert_eq!(
        TaskContext::goto_trap_return(0x7000, 0x8020_1450),
        TaskContext { ra: 0x8020_1450, sp: 0x7000, s: [0; 12] }
    );
}

#[test]
fn boot_without_applications_leaves_every_hart_idle() {
    let mut k = boot(4);
    assert_eq!(k.processors.len(), 4);
    assert!(k.tasks.is_empty());
    for round in 0..50 {
        for hart in 0..4 {
            assert_eq!(fetch_task(&mut k), None, "round {}", round);
            assert_eq!(run_tasks(&mut k, hart), None);
            assert_eq!(current_task(&k, hart), None);
            assert!(!k.processors[hart].in_task);
        }
    }
    assert!(ready(&k).is_empty());
}

#[test]
fn init_process_is_created_ready_and_queued() {
    let mut k = boot(2);
    let before = free(&k);
    let kernel_token = k.kernel_space.token();
    let kernel_areas = k.kernel_space.areas.len();
    let init = add_initproc(&mut k, &app(0x1_0000)).unwrap();
    assert_eq!(init, 0);
    assert_eq!(k.initproc, Some(0));
    assert_eq!(ready(&k), vec![0]);
    assert_eq!(status(&k, 0), TaskStatus::Ready);
    assert_eq!(parent(&k, 0), None);
    assert!(children(&k, 0).is_empty());
    let (bottom, top) = kernel_stack_position(0);
    let task = k.tasks[0].as_ref().unwrap();
    assert_eq!(task.getpid(), 0);
    assert_eq!(task.exit_code, 0);
    assert_eq!(task.base_size, 0x12 * PAGE_SIZE + USER_STACK_SIZE);
    assert_eq!(task.task_cx, TaskContext { ra: 0x8020_1450, sp: top, s: [0; 12] });
    assert_eq!(task.kernel_stack.get_top(), top);
    assert_eq!(task.kernel_stack.get_bottom(), bottom);
    assert!(!task.is_zombie());
    // The first trap context starts the program in user mode.
    let cx = task.memory_set.load_trap_context();
    let mut x = [0u64; 32];
    x[2] = task.base_size;
    assert_eq!(
        cx,
        TrapContext {
            x,
            sstatus: 0x8000_0002_0000_0022,
            sepc: 0x1_0000,
            kernel_satp: kernel_token,
            kernel_sp: top,
            trap_handler: 0x8020_1230,
        }
    );
    let e = task.memory_set.translate(os::mm::address::VirtPageNum(0x7ff_fffe)).unwrap();
    assert_eq!(e.ppn(), task.trap_cx_ppn);
    // The kernel stack is mapped in the kernel space.
    assert_eq!(k.kernel_space.areas.len(), kernel_areas + 1);
    let stack = k.kernel_space.areas.last().unwrap();
    let pages = (stack.vpn_range.start.0, stack.vpn_range.end.0);
    assert_eq!(pages, (bottom / PAGE_SIZE, top / PAGE_SIZE));
    assert_eq!(k.kernel_space.token(), kernel_token);
    // Root, four tables, one page of program, two of stack, one of trap
    // context, and two pages of kernel stack.
    assert_eq!(before - free(&k), 1 + 4 + 1 + 2 + 1 + 2);
}

#[test]
fn tasks_are_created_as_children() {
    let mut k = boot(1);
    let init = add_initproc(&mut k, &app(0x1_0000)).unwrap();
    let a = create_task(&mut k, &app(0x1_0000), Some(init)).unwrap();
    let b = create_task(&mut k, &app(0x1_0004), Some(a)).unwrap();
    let c = create_task(&mut k, &app(0x1_0008), None).unwrap();
    assert_eq!((init, a, b, c), (0, 1, 2, 3));
    assert_eq!(ready(&k), vec![0, 1, 2, 3]);
    assert_eq!(children(&k, init), vec![a]);
    assert_eq!(children(&k, a), vec![b]);
    assert_eq!(parent(&k, a), Some(init));
    assert_eq!(parent(&k, b), Some(a));
    assert_eq!(parent(&k, c), None);
    assert_eq!(k.initproc, Some(init));
}

#[test]
fn failed_creation_changes_nothing() {
    let mut k = boot(1);
    let before = free(&k);
    let r = add_initproc(&mut k, &[0u8; 10]);
    assert_eq!(r, Err(TaskError::Load(LoadError::Image(ElfError::TooShort))));
    assert_eq!(free(&k), before);
    assert!(ready(&k).is_empty());
    assert_eq!(k.initproc, None);
    // No identifier left.
    k.pid_allocator.limit = 0;
    let areas = k.kernel_space.areas.len();
    assert_eq!(add_initproc(&mut k, &app(0x1_0000)), Err(TaskError::NoPid));
    assert_eq!(free(&k), before);
    assert_eq!(k.kernel_space.areas.len(), areas);
    assert!(k.tasks.is_empty());
    // The place of the kernel stack is taken.
    k.pid_allocator.limit = 8;
    let (bottom, top) = kernel_stack_position(0);
    let perm = os::mm::memory_set::MapPermission { bits: 2 };
    let (va, vb) = (os::mm::address::VirtAddr(bottom), os::mm::address::VirtAddr(top));
    assert_eq!(k.kernel_space.insert_framed_area(&mut k.frame_allocator, va, vb, perm), Ok(()));
    let before = free(&k);
    let r = create_task(&mut k, &app(0x1_0000), None);
    assert_eq!(r, Err(TaskError::Stack(MapError::AlreadyMapped)));
    assert_eq!(free(&k), before);
    // The identifier came back.
    assert_eq!(k.pid_allocator.recycled, vec![0]);
    assert!(ready(&k).is_empty());
}

#[test]
fn creation_runs_out_of_memory() {
    // Room for the kernel space and little else.
    let mut k = Kernel::new(machine(0x8021_8000), 1).unwrap();
    let before = free(&k);
    assert!(before < 12);
    let r = add_initproc(&mut k, &app(0x1_0000));
    assert_eq!(r, Err(TaskError::Load(LoadError::Space(MapError::OutOfMemory))));
    assert_eq!(free(&k), before);
    assert_eq!(Kernel::new(machine(0x8020_a000), 1).err(), Some(MapError::OutOfMemory));
}

#[test]
fn dispatch_binds_the_head_of_the_queue() {
    let mut k = boot(2);
    let init = add_initproc(&mut k, &app(0x1_0000)).unwrap();
    let a = create_task(&mut k, &app(0x1_0000), Some(init)).unwrap();
    k.processors[0].registers = sentinel(10);
    let saved = k.tasks[init].as_ref().unwrap().task_cx;
    assert_eq!(run_tasks(&mut k, 0), Some(init));
    assert_eq!(current_task(&k, 0), Some(init));
    assert_eq!(status(&k, init), TaskStatus::Running);
    assert!(k.processors[0].in_task);
    assert_eq!(k.processors[0].idle_task_cx, sentinel(10));
    assert_eq!(k.processors[0].registers, saved);
    assert_eq!(ready(&k), vec![a]);
    assert_eq!(run_tasks(&mut k, 1), Some(a));
    assert_eq!(current_task(&k, 1), Some(a));
    assert!(ready(&k).is_empty());
    assert_eq!(current_user_token(&k, 0), k.tasks[init].as_ref().unwrap().memory_set.token());
    assert_eq!(current_user_token(&k, 1), k.tasks[a].as_ref().unwrap().get_user_token());
    assert_ne!(current_user_token(&k, 0), current_user_token(&k, 1));
}

#[test]
fn suspend_requeues_and_returns_to_the_idle_loop() {
    let mut k = boot(1);
    let init = add_initproc(&mut k, &app(0x1_0000)).unwrap();
    let a = create_task(&mut k, &app(0x1_0000), Some(init)).unwrap();
    k.processors[0].registers = sentinel(10);
    assert_eq!(run_tasks(&mut k, 0), Some(init));
    k.processors[0].registers = sentinel(11);
    suspend_current_and_run_next(&mut k, 0);
    assert_eq!(current_task(&k, 0), None);
    assert!(!k.processors[0].in_task);
    assert_eq!(status(&k, init), TaskStatus::Ready);
    assert_eq!(ready(&k), vec![a, init]);
    assert_eq!(k.tasks[init].as_ref().unwrap().task_cx, sentinel(11));
    assert_eq!(k.processors[0].registers, sentinel(10));
}

#[test]
fn context_makes_the_round_trip() {
    let mut k = boot(2);
    let init = add_initproc(&mut k, &app(0x1_0000)).unwrap();
    let a = create_task(&mut k, &app(0x1_0000), Some(init)).unwrap();
    let b = create_task(&mut k, &app(0x1_0000), Some(init)).unwrap();
    assert_eq!(run_tasks(&mut k, 0), Some(init));
    assert_eq!(run_tasks(&mut k, 1), Some(a));
    // The task on hart 1 runs for a while, then gives up the hart.
    k.processors[1].registers = sentinel(77);
    suspend_current_and_run_next(&mut k, 1);
    assert_eq!(ready(&k), vec![b, a]);
    // Other things happen on both harts before it is its turn again.
    assert_eq!(run_tasks(&mut k, 1), Some(b));
    k.processors[1].registers = sentinel(5);
    k.processors[0].registers = sentinel(6);
    suspend_current_and_run_next(&mut k, 0);
    suspend_current_and_run_next(&mut k, 1);
    assert_eq!(ready(&k), vec![a, init, b]);
    assert_eq!(k.tasks[a].as_ref().unwrap().task_cx, sentinel(77));
    // It resumes on the other hart with every register as it was.
    k.processors[0].registers = sentinel(1234);
    assert_eq!(run_tasks(&mut k, 0), Some(a));
    assert_eq!(k.processors[0].registers, sentinel(77));
    assert_eq!(k.processors[0].idle_task_cx, sentinel(1234));
    assert_eq!(status(&k, a), TaskStatus::Running);
}

#[test]
fn schedule_saves_into_the_slot() {
    let mut k = boot(1);
    let init = add_initproc(&mut k, &app(0x1_0000)).unwrap();
    k.processors[0].registers = sentinel(10);
    assert_eq!(run_tasks(&mut k, 0), Some(init));
    k.processors[0].registers = sentinel(20);
    // The task switches back while it stays bound, and is marked ready.
    schedule(&mut k, 0, ContextSlot::Task(init));
    k.tasks[init].as_mut().unwrap().task_status = TaskStatus::Ready;
    assert_eq!(k.tasks[init].as_ref().unwrap().task_cx, sentinel(20));
    assert_eq!(k.processors[0].registers, sentinel(10));
    assert!(!k.processors[0].in_task);
    assert_eq!(current_task(&k, 0), Some(init));
    assert!(ready(&k).is_empty());
    // The idle loop lets go of it, queues it because it is ready, and
    // takes it again, being first in line.
    k.processors[0].registers = sentinel(30);
    assert_eq!(run_tasks(&mut k, 0), Some(init));
    assert_eq!(k.processors[0].registers, sentinel(20));
    assert_eq!(status(&k, init), TaskStatus::Running);
    // With a scratch slot the context is saved nowhere.
    k.processors[0].registers = sentinel(40);
    schedule(&mut k, 0, ContextSlot::Scratch);
    assert_eq!(k.tasks[init].as_ref().unwrap().task_cx, sentinel(20));
    assert_eq!(k.processors[0].registers, sentinel(30));
    // A task that is not ready is let go and not queued.
    assert_eq!(run_tasks(&mut k, 0), None);
    assert_eq!(current_task(&k, 0), None);
    assert!(ready(&k).is_empty());
}

#[test]
fn take_current_task_unbinds() {
    let mut k = boot(2);
    let init = add_initproc(&mut k, &app(0x1_0000)).unwrap();
    assert_eq!(take_current_task(&mut k, 0), None);
    assert_eq!(run_tasks(&mut k, 1), Some(init));
    assert_eq!(take_current_task(&mut k, 0), None);
    assert_eq!(take_current_task(&mut k, 1), Some(init));
    assert_eq!(take_current_task(&mut k, 1), None);
    assert_eq!(current_task(&k, 1), None);
    assert_eq!(status(&k, init), TaskStatus::Running);
}

#[test]
fn added_tasks_are_fetched_first_in_first_out() {
    let mut k = boot(1);
    let init = add_initproc(&mut k, &app(0x1_0000)).unwrap();
    let a = create_task(&mut k, &app(0x1_0000), Some(init)).unwrap();
    let b = create_task(&mut k, &app(0x1_0000), Some(init)).unwrap();
    assert_eq!(fetch_task(&mut k), Some(init));
    assert_eq!(fetch_task(&mut k), Some(a));
    add_task(&mut k, init);
    assert_eq!(ready(&k), vec![b, init]);
    assert_eq!(fetch_task(&mut k), Some(b));
    assert_eq!(fetch_task(&mut k), Some(init));
    assert_eq!(fetch_task(&mut k), None);
    assert_eq!(fetch_task(&mut k), None);
}

#[test]
fn exit_hands_the_children_to_the_init_process() {
    let mut k = boot(2);
    let init = add_initproc(&mut k, &app(0x1_0000)).unwrap();
    let first = create_task(&mut k, &app(0x1_0000), Some(init)).unwrap();
    let dying = create_task(&mut k, &app(0x1_0000), Some(init)).unwrap();
    let kids: Vec<usize> =
        (0..5).map(|_| create_task(&mut k, &app(0x1_0000), Some(dying)).unwrap()).collect();
    let grandchild = create_task(&mut k, &app(0x1_0000), Some(kids[1])).unwrap();
    assert_eq!(children(&k, init), vec![first, dying]);
    assert_eq!(children(&k, dying), kids);
    // Bring the dying task onto hart 1.
    assert_eq!(run_tasks(&mut k, 0), Some(init));
    assert_eq!(run_tasks(&mut k, 1), Some(first));
    suspend_current_and_run_next(&mut k, 1);
    assert_eq!(run_tasks(&mut k, 1), Some(dying));
    let queued = ready(&k);
    let before = free(&k);
    let token = current_user_token(&k, 1);
    k.processors[1].registers = sentinel(9);
    let idle = k.processors[1].idle_task_cx;
    exit_current_and_run_next(&mut k, 1, -3);
    assert_eq!(status(&k, dying), TaskStatus::Zombie);
    assert_eq!(k.tasks[dying].as_ref().unwrap().exit_code, -3);
    assert!(k.tasks[dying].as_ref().unwrap().is_zombie());
    assert!(children(&k, dying).is_empty());
    assert_eq!(parent(&k, dying), Some(init));
    for kid in &kids {
        assert_eq!(parent(&k, *kid), Some(init));
    }
    let mut expected = vec![first, dying];
    expected.extend(&kids);
    assert_eq!(children(&k, init), expected);
    assert_eq!(parent(&k, grandchild), Some(kids[1]));
    assert_eq!(children(&k, kids[1]), vec![grandchild]);
    // The hart is back in its idle loop; nothing was queued.
    assert_eq!(current_task(&k, 1), None);
    assert!(!k.processors[1].in_task);
    assert_eq!(k.processors[1].registers, idle);
    assert_eq!(ready(&k), queued);
    assert_eq!(current_task(&k, 0), Some(init));
    // One page of program, two of stack, one of trap context came back;
    // the page table stays.
    assert_eq!(free(&k), before + 4);
    assert!(k.tasks[dying].as_ref().unwrap().memory_set.areas.is_empty());
    assert_eq!(k.tasks[dying].as_ref().unwrap().memory_set.token(), token);
    assert_eq!(zombie_children(&k, init), vec![(dying, -3)]);
    assert_eq!(zombie_children(&k, dying), vec![]);
}

#[test]
fn exits_on_two_harts_add_up() {
    let mut k = boot(2);
    let init = add_initproc(&mut k, &app(0x1_0000)).unwrap();
    let a = create_task(&mut k, &app(0x1_0000), Some(init)).unwrap();
    let b = create_task(&mut k, &app(0x1_0000), Some(a)).unwrap();
    let a_kid = create_task(&mut k, &app(0x1_0000), Some(a)).unwrap();
    let b_kid = create_task(&mut k, &app(0x1_0000), Some(b)).unwrap();
    assert_eq!(fetch_task(&mut k), Some(init));
    assert_eq!(run_tasks(&mut k, 0), Some(a));
    assert_eq!(run_tasks(&mut k, 1), Some(b));
    // The child exits first, then its parent.
    exit_current_and_run_next(&mut k, 1, 1);
    assert_eq!(children(&k, init), vec![a, b_kid]);
    exit_current_and_run_next(&mut k, 0, 2);
    assert_eq!(children(&k, init), vec![a, b_kid, b, a_kid]);
    for pid in [a, b, a_kid, b_kid] {
        assert_eq!(parent(&k, pid), Some(init));
    }
    assert_eq!(zombie_children(&k, init), vec![(a, 2), (b, 1)]);
    let mut sorted = children(&k, init);
    sorted.sort();
    sorted.dedup();
    assert_eq!(sorted.len(), 4);
}

#[test]
fn one_application_exits_with_code_seven() {
    let mut k = boot(4);
    let init = add_initproc(&mut k, &app(0x1_0000)).unwrap();
    let only = create_task(&mut k, &app(0x1_0000), Some(init)).unwrap();
    // The init process is taken by hart 0 and waits there.
    assert_eq!(run_tasks(&mut k, 0), Some(init));
    assert_eq!(run_tasks(&mut k, 1), Some(only));
    exit_current_and_run_next(&mut k, 1, 7);
    let zombies: Vec<usize> = (0..k.tasks.len())
        .filter(|pid| k.tasks[*pid].as_ref().map_or(false, |t| t.is_zombie()))
        .collect();
    assert_eq!(zombies, vec![only]);
    assert_eq!(k.tasks[only].as_ref().unwrap().exit_code, 7);
    assert_eq!(parent(&k, only), Some(init));
    assert_eq!(children(&k, init), vec![only]);
    assert_eq!(zombie_children(&k, init), vec![(only, 7)]);
    for round in 0..20 {
        for hart in 1..4 {
            assert_eq!(run_tasks(&mut k, hart), None, "round {}", round);
            assert_eq!(fetch_task(&mut k), None);
        }
    }
    assert_eq!(current_task(&k, 0), Some(init));
}

#[test]
fn two_yielding_applications_both_keep_running() {
    for harts in 1..=3 {
        let mut k = boot(harts);
        let a = create_task(&mut k, &app(0x1_0000), None).unwrap();
        let b = create_task(&mut k, &app(0x1_0000), None).unwrap();
        let mut runs = [0usize; 2];
        let mut last_run = [0usize; 2];
        for round in 1..=300 {
            for hart in 0..harts {
                if k.processors[hart].in_task {
                    suspend_current_and_run_next(&mut k, hart);
                }
                if let Some(pid) = run_tasks(&mut k, hart) {
                    assert_eq!(status(&k, pid), TaskStatus::Running);
                    runs[pid] += 1;
                    last_run[pid] = round;
                }
            }
            // Neither waits longer than two rounds.
            assert!(round - last_run[a] <= 2, "{} harts, round {}", harts, round);
            assert!(round - last_run[b] <= 2, "{} harts, round {}", harts, round);
        }
        assert!(runs[a] >= 100 && runs[b] >= 100);
        let bound: Vec<usize> = (0..harts).filter_map(|h| current_task(&k, h)).collect();
        assert_eq!(bound.len() + ready(&k).len(), 2);
    }
}

#[test]
fn trap_context_of_the_running_task_is_read_and_replaced() {
    let mut k = boot(1);
    let init = add_initproc(&mut k, &app(0x1_0040)).unwrap();
    assert_eq!(run_tasks(&mut k, 0), Some(init));
    let mut cx = current_trap_cx(&k, 0);
    assert_eq!(cx.sepc, 0x1_0040);
    assert_eq!(cx.x[2], 0x12 * PAGE_SIZE + USER_STACK_SIZE);
    cx.sepc += 4;
    cx.x[10] = 42;
    cx.set_sp(0x1_3ff0);
    set_current_trap_cx(&mut k, 0, &cx);
    assert_eq!(current_trap_cx(&k, 0), cx);
    assert_eq!(current_trap_cx(&k, 0).x[2], 0x1_3ff0);
    // The context lies at the start of the trap page of the task.
    let bytes = os::mm::memory_set::translated_byte_buffer(
        &k.tasks[init].as_ref().unwrap().memory_set,
        0x7f_ffff_e000 + 10 * 8,
        8,
    )
    .unwrap();
    assert_eq!(bytes, vec![vec![42, 0, 0, 0, 0, 0, 0, 0]]);
}

#[test]
fn first_trap_context_clears_the_privilege_bit() {
    let cx = TrapContext::app_init_context(1, 2, 3, 4, 5, 0x1ff);
    assert_eq!(cx.sstatus, 0x0ff);
    assert_eq!(cx.x[2], 2);
    assert_eq!(cx.x.iter().filter(|r| **r != 0).count(), 1);
    assert_eq!((cx.sepc, cx.kernel_satp, cx.kernel_sp, cx.trap_handler), (1, 3, 4, 5));
}

#[test]
fn ready_queue_is_first_in_first_out() {
    let mut queue = TaskManager::new();
    assert_eq!(queue.fetch(), None);
    queue.add(3);
    queue.add(1);
    queue.add(2);
    assert_eq!(queue.fetch(), Some(3));
    queue.add(3);
    assert_eq!(queue.fetch(), Some(1));
    assert_eq!(queue.fetch(), Some(2));
    assert_eq!(queue.fetch(), Some(3));
    assert_eq!(queue.fetch(), None);
}
