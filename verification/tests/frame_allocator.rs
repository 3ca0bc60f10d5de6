use os::mm::address::PhysPageNum;
use os::mm::frame_allocator::{
    frame_alloc, frame_alloc_n, frame_dealloc, FrameError, StackFrameAllocator,
};

fn pool(l: u64, r: u64) -> StackFrameAllocator {
    let mut pool = StackFrameAllocator::new();
    pool.init(PhysPageNum(l), PhysPageNum(r));
    pool
}

#[test]
fn frames_come_from_the_low_end_then_run_out() {
    let mut p = pool(10, 13);
    assert_eq!(p.allocate(), Some(PhysPageNum(10)));
    assert_eq!(p.allocate(), Some(PhysPageNum(11)));
    assert_eq!(p.allocate(), Some(PhysPageNum(12)));
    assert_eq!(p.allocate(), None);
}

#[test]
fn returned_frames_are_reused_last_first() {
    let mut p = pool(10, 20);
    let a = p.allocate().unwrap();
    let b = p.allocate().unwrap();
    assert_eq!(p.dealloc(a), Ok(()));
    assert_eq!(p.dealloc(b), Ok(()));
    assert_eq!(p.allocate(), Some(b));
    assert_eq!(p.allocate(), Some(a));
    assert_eq!(p.allocate(), Some(PhysPageNum(12)));
}

#[test]
fn double_free_is_refused() {
    let mut p = pool(10, 20);
    let a = p.allocate().unwrap();
    assert_eq!(p.dealloc(a), Ok(()));
    assert_eq!(p.dealloc(a), Err(FrameError::NotAllocated));
    assert_eq!(p.dealloc(PhysPageNum(15)), Err(FrameError::NotAllocated));
    assert_eq!(p.dealloc(PhysPageNum(9)), Err(FrameError::NotAllocated));
}

#[test]
fn allocated_frames_are_zero_filled() {
    let mut p = pool(10, 20);
    let mut f = frame_alloc(&mut p).unwrap();
    assert_eq!(f.words.len(), 512);
    assert!(f.words.iter().all(|w| *w == 0));
    f.write_byte(9, 0xab);
    assert_eq!(f.read_byte(9), 0xab);
    assert_eq!(f.read_byte(8), 0);
    assert_eq!(f.words[1], 0xab00);
    let ppn = f.ppn;
    assert_eq!(frame_dealloc(&mut p, f), Ok(()));
    let again = frame_alloc(&mut p).unwrap();
    assert_eq!(again.ppn, ppn);
    assert!(again.words.iter().all(|w| *w == 0));
}

#[test]
fn free_frames_are_counted() {
    let mut p = pool(10, 14);
    assert!(p.has_free(0));
    assert!(p.has_free(4));
    assert!(!p.has_free(5));
    let a = p.allocate().unwrap();
    let b = p.allocate().unwrap();
    assert!(p.has_free(2));
    assert!(!p.has_free(3));
    assert!(p.is_allocated(a));
    assert!(p.is_allocated(b));
    assert!(!p.is_allocated(PhysPageNum(12)));
    assert!(!p.is_allocated(PhysPageNum(9)));
    assert_eq!(p.dealloc(a), Ok(()));
    assert!(!p.is_allocated(a));
    assert!(p.has_free(3));
    assert!(!p.has_free(u64::MAX));
}

#[test]
fn frames_are_taken_all_or_none() {
    let mut p = pool(10, 14);
    let first = p.allocate().unwrap();
    assert_eq!(p.dealloc(first), Ok(()));
    assert!(frame_alloc_n(&mut p, 5).is_none());
    assert!(p.has_free(4));
    assert_eq!(p.recycled, vec![10]);
    let frames = frame_alloc_n(&mut p, 3).unwrap();
    let ppns: Vec<u64> = frames.iter().map(|f| f.ppn.0).collect();
    assert_eq!(ppns, vec![10, 11, 12]);
    assert!(frames.iter().all(|f| f.words.len() == 512 && f.words.iter().all(|w| *w == 0)));
    assert!(p.has_free(1) && !p.has_free(2));
    assert_eq!(frame_alloc_n(&mut p, 0).unwrap().len(), 0);
}

#[test]
fn as_many_drops_as_allocations_restore_the_free_count() {
    let mut p = pool(100, 164);
    let mut live: Vec<PhysPageNum> = Vec::new();
    let mut seed = 7u32;
    for _ in 0..5000 {
        seed = seed.wrapping_mul(1664525).wrapping_add(1013904223);
        if (seed >> 8) % 2 == 0 {
            match p.allocate() {
                Some(ppn) => {
                    assert!(!live.contains(&ppn));
                    live.push(ppn);
                },
                None => assert_eq!(live.len(), 64),
            }
        } else if !live.is_empty() {
            let ppn = live.swap_remove((seed >> 16) as usize % live.len());
            assert_eq!(p.dealloc(ppn), Ok(()));
        }
        assert!(p.has_free(64 - live.len() as u64));
        assert!(!p.has_free(64 - live.len() as u64 + 1));
    }
    while let Some(ppn) = live.pop() {
        assert_eq!(p.dealloc(ppn), Ok(()));
    }
    assert!(p.has_free(64) && !p.has_free(65));
}
