use os::boot::{
    boot_finish, finish_global_init, rust_main, wait_all_booted, wait_global_init, BootAction,
    BootBarrier, BootStage,
};
use os::config::{CONTROL_CPU, CPU_NUM};
use os::console::{print, Stdout};
use os::task::pid::{pid_alloc, PidAllocator, PidError, PidHandle};

#[test]
fn pids_count_up_and_are_reused_last_first() {
    let mut pool = PidAllocator::new(4);
    let a = pid_alloc(&mut pool).unwrap();
    let b = pid_alloc(&mut pool).unwrap();
    let c = pool.allocate().unwrap();
    assert_eq!((a.0, b.0, c.0), (0, 1, 2));
    assert_eq!(pool.dealloc(a), Ok(()));
    assert_eq!(pool.dealloc(c), Ok(()));
    assert_eq!(pid_alloc(&mut pool), Some(PidHandle(2)));
    assert_eq!(pid_alloc(&mut pool), Some(PidHandle(0)));
    assert_eq!(pid_alloc(&mut pool), Some(PidHandle(3)));
    assert_eq!(pid_alloc(&mut pool), None);
    assert_eq!(pool.dealloc(b), Ok(()));
    assert_eq!(pid_alloc(&mut pool), Some(PidHandle(1)));
}

#[test]
fn returning_a_pid_twice_is_refused() {
    let mut pool = PidAllocator::new(8);
    let a = pid_alloc(&mut pool).unwrap();
    assert_eq!(pool.dealloc(PidHandle(a.0)), Ok(()));
    assert_eq!(pool.dealloc(a), Err(PidError::NotAllocated));
    assert_eq!(pool.dealloc(PidHandle(5)), Err(PidError::NotAllocated));
    assert_eq!(pool.recycled, vec![0]);
    assert_eq!(pool.current, 1);
}

#[test]
fn no_two_live_pids_are_equal() {
    let mut pool = PidAllocator::new(64);
    let mut live: Vec<usize> = Vec::new();
    let mut seed = 12345u32;
    for _ in 0..2000 {
        seed = seed.wrapping_mul(1664525).wrapping_add(1013904223);
        if seed % 3 != 0 || live.is_empty() {
            if let Some(pid) = pid_alloc(&mut pool) {
                assert!(!live.contains(&pid.0));
                live.push(pid.0);
            } else {
                assert_eq!(live.len(), 64);
            }
        } else {
            let pid = live.swap_remove(seed as usize % live.len());
            assert_eq!(pool.dealloc(PidHandle(pid)), Ok(()));
        }
    }
}

#[test]
fn barrier_flags_and_counter() {
    let mut b = BootBarrier::new(CPU_NUM);
    assert_eq!(b, BootBarrier { claimed: false, global_init: false, booted: 0, harts: 4 });
    assert!(!wait_global_init(&b));
    assert!(!wait_all_booted(&b));
    assert!(b.claim_control());
    assert!(!b.claim_control());
    assert!(!b.claim_control());
    finish_global_init(&mut b);
    assert!(wait_global_init(&b));
    for booted in 1..=4 {
        assert!(!wait_all_booted(&b));
        boot_finish(&mut b);
        assert_eq!(b.booted, booted);
    }
    assert!(wait_all_booted(&b));
    boot_finish(&mut b);
    assert!(!wait_all_booted(&b));
    b.booted = usize::MAX;
    boot_finish(&mut b);
    assert_eq!(b.booted, 0);
}

#[test]
fn machine_without_harts_is_booted_at_once() {
    let b = BootBarrier::new(0);
    assert!(wait_all_booted(&b));
}

#[test]
fn control_hart_walks_through_the_boot_sequence() {
    let mut b = BootBarrier::new(1);
    let mut stage = BootStage::Entered;
    let mut seen = Vec::new();
    for _ in 0..8 {
        let (next, action) = rust_main(&mut b, stage);
        seen.push((next, action));
        stage = next;
    }
    assert_eq!(
        seen,
        vec![
            (BootStage::GlobalInit, BootAction::InitGlobal),
            (BootStage::AwaitGlobalInit, BootAction::Spin),
            (BootStage::LocalInit, BootAction::InitLocal),
            (BootStage::AwaitAllBooted, BootAction::Spin),
            (BootStage::Scheduling, BootAction::RunTasks),
            (BootStage::Scheduling, BootAction::RunTasks),
            (BootStage::Scheduling, BootAction::RunTasks),
            (BootStage::Scheduling, BootAction::RunTasks),
        ]
    );
    assert_eq!(b, BootBarrier { claimed: true, global_init: true, booted: 1, harts: 1 });
}

#[test]
fn four_harts_boot_in_any_order() {
    for seed in 0..200u32 {
        let mut b = BootBarrier::new(CPU_NUM);
        let mut stages = [BootStage::Entered; CPU_NUM];
        let mut global_inits = 0;
        let mut local_inits = 0;
        let mut state = seed.wrapping_mul(2654435761).wrapping_add(1);
        let mut steps = 0;
        while stages.iter().any(|s| *s != BootStage::Scheduling) {
            state = state.wrapping_mul(1664525).wrapping_add(1013904223);
            let hart = (state >> 16) as usize % CPU_NUM;
            let (next, action) = rust_main(&mut b, stages[hart]);
            stages[hart] = next;
            match action {
                BootAction::InitGlobal => {
                    global_inits += 1;
                    assert!(!b.global_init);
                },
                BootAction::InitLocal => {
                    local_inits += 1;
                    assert!(b.global_init);
                },
                BootAction::RunTasks => {
                    assert_eq!(b.booted, CPU_NUM);
                    assert!(stages
                        .iter()
                        .all(|s| matches!(s, BootStage::AwaitAllBooted | BootStage::Scheduling)));
                },
                BootAction::Spin => {},
            }
            steps += 1;
            assert!(steps < 100_000);
        }
        assert_eq!(global_inits, 1);
        assert_eq!(local_inits, CPU_NUM);
    }
    assert_eq!(CONTROL_CPU, 0);
}

#[test]
fn text_becomes_console_characters() {
    let mut out = Stdout::new();
    print(&mut out, "Hi\n");
    assert_eq!(out.pending, vec![72, 105, 10]);
    out.write_str("é€😀");
    assert_eq!(out.pending, vec![72, 105, 10, 0xe9, 0x20ac, 0x1f600]);
    print(&mut out, "");
    assert_eq!(out.take(), vec![72, 105, 10, 0xe9, 0x20ac, 0x1f600]);
    assert!(out.pending.is_empty());
    assert_eq!(out.take(), Vec::<usize>::new());
}
