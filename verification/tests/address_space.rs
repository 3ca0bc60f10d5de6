use os::config::{PAGE_SIZE, TRAMPOLINE, TRAP_CONTEXT, USER_STACK_SIZE};
use os::mm::address::{PhysPageNum, VPNRange, VirtAddr, VirtPageNum};
use os::mm::elf::{ElfError, PF_R, PF_W, PF_X, PT_LOAD};
use os::mm::frame_allocator::{FrameTracker, StackFrameAllocator};
use os::mm::memory_set::{
    copy_to_user, is_readable, permission_of, translated_byte_buffer, translated_str,
    KernelLayout, LoadError, MapArea, MapPermission, MapType, MemorySet, PERM_R, PERM_U, PERM_W,
    PERM_X,
};
use os::trap::TrapContext;
use os::mm::page_table::{MapError, FLAG_V};
use os::mm::{allocator_init, kernel_space_init};
use os::mm::plan::AreaPlan;
use os::task::pid::{hart_stack_position, kernel_stack_position, KernelStack, PidHandle};

fn pool(frames: u64) -> StackFrameAllocator {
    let mut pool = StackFrameAllocator::new();
    pool.init(PhysPageNum(0x80400), PhysPageNum(0x80400 + frames));
    pool
}

fn free(pool: &StackFrameAllocator) -> u64 {
    pool.recycled.len() as u64 + (pool.end - pool.current)
}

fn image(entry: u64, segments: &[(u32, u64, Vec<u8>, u64)]) -> Vec<u8> {
    let mut b = vec![0u8; 64];
    b[0..4].copy_from_slice(&[0x7f, b'E', b'L', b'F']);
    b[4] = 2;
    b[5] = 1;
    b[24..32].copy_from_slice(&entry.to_le_bytes());
    b[32..40].copy_from_slice(&64u64.to_le_bytes());
    b[54..56].copy_from_slice(&56u16.to_le_bytes());
    b[56..58].copy_from_slice(&(segments.len() as u16).to_le_bytes());
    let mut offset = 64 + 56 * segments.len() as u64;
    let mut data: Vec<u8> = Vec::new();
    for (flags, vaddr, bytes, memsz) in segments {
        let mut ph = vec![0u8; 56];
        ph[0..4].copy_from_slice(&PT_LOAD.to_le_bytes());
        ph[4..8].copy_from_slice(&flags.to_le_bytes());
        ph[8..16].copy_from_slice(&offset.to_le_bytes());
        ph[16..24].copy_from_slice(&vaddr.to_le_bytes());
        ph[32..40].copy_from_slice(&(bytes.len() as u64).to_le_bytes());
        ph[40..48].copy_from_slice(&memsz.to_le_bytes());
        b.extend(ph);
        offset += bytes.len() as u64;
        data.extend(bytes.iter());
    }
    b.extend(data);
    b
}

fn ranges(space: &MemorySet) -> Vec<(u64, u64)> {
    space.areas.iter().map(|a| (a.vpn_range.start.0, a.vpn_range.end.0)).collect()
}

fn flat(chunks: Vec<Vec<u8>>) -> Vec<u8> {
    chunks.into_iter().flatten().collect()
}

#[test]
fn bare_space_takes_one_frame() {
    let mut p = pool(8);
    let space = MemorySet::new_bare(&mut p).unwrap();
    assert_eq!(free(&p), 7);
    assert!(space.areas.is_empty());
    assert_eq!(space.token(), (8u64 << 60) | 0x80400);
    assert_eq!(space.activate(), space.token());
    assert_eq!(kernel_space_init(&space), space.token());
    assert_eq!(space.translate(VirtPageNum(0)), None);
    let mut none = pool(0);
    assert!(MemorySet::new_bare(&mut none).is_none());
}

#[test]
fn framed_area_is_widened_to_pages_and_zeroed() {
    let mut p = pool(16);
    let mut space = MemorySet::new_bare(&mut p).unwrap();
    let perm = MapPermission { bits: PERM_R | PERM_W | PERM_U };
    let (start, end) = (VirtAddr(0x1_0800), VirtAddr(0x1_2001));
    assert_eq!(space.insert_framed_area(&mut p, start, end, perm), Ok(()));
    assert_eq!(ranges(&space), vec![(0x10, 0x13)]);
    // Root, two tables, three pages.
    assert_eq!(free(&p), 16 - 6);
    let area = &space.areas[0];
    assert_eq!(area.map_type, MapType::Framed);
    assert_eq!(area.map_perm, perm);
    assert_eq!(area.data_frames.len(), 3);
    for (i, frame) in area.data_frames.iter().enumerate() {
        assert!(frame.words.iter().all(|w| *w == 0));
        let e = space.translate(VirtPageNum(0x10 + i as u64)).unwrap();
        assert_eq!(e.ppn(), frame.ppn);
        assert_eq!(e.flags().bits, PERM_R | PERM_W | PERM_U | FLAG_V);
    }
    assert_eq!(space.translate(VirtPageNum(0x13)), None);
    assert_eq!(space.translate(VirtPageNum(0xf)), None);
}

#[test]
fn empty_area_maps_nothing() {
    let mut p = pool(16);
    let mut space = MemorySet::new_bare(&mut p).unwrap();
    let perm = MapPermission { bits: PERM_R };
    assert_eq!(space.insert_framed_area(&mut p, VirtAddr(0x5000), VirtAddr(0x5000), perm), Ok(()));
    assert_eq!(space.insert_framed_area(&mut p, VirtAddr(0x9000), VirtAddr(0x2000), perm), Ok(()));
    assert_eq!(ranges(&space), vec![(5, 5), (9, 9)]);
    assert_eq!(free(&p), 15);
}

#[test]
fn overlapping_area_is_refused_and_changes_nothing() {
    let mut p = pool(32);
    let mut space = MemorySet::new_bare(&mut p).unwrap();
    let perm = MapPermission { bits: PERM_R | PERM_W };
    assert_eq!(space.insert_framed_area(&mut p, VirtAddr(0x4000), VirtAddr(0x8000), perm), Ok(()));
    let before = free(&p);
    let meeting = [(0x7000u64, 0x9000u64), (0x3000, 0x5000), (0x5000, 0x6000), (0x0, 0x10_0000)];
    for (start, end) in meeting {
        assert_eq!(
            space.insert_framed_area(&mut p, VirtAddr(start), VirtAddr(end), perm),
            Err(MapError::AlreadyMapped)
        );
        assert_eq!(ranges(&space), vec![(4, 8)]);
        assert_eq!(free(&p), before);
        assert_eq!(space.translate(VirtPageNum(8)), None);
        assert_eq!(space.translate(VirtPageNum(3)), None);
    }
    // Touching areas do not overlap.
    assert_eq!(space.insert_framed_area(&mut p, VirtAddr(0x8000), VirtAddr(0x9000), perm), Ok(()));
    assert_eq!(space.insert_framed_area(&mut p, VirtAddr(0x3000), VirtAddr(0x4000), perm), Ok(()));
    assert_eq!(ranges(&space), vec![(4, 8), (8, 9), (3, 4)]);
    for i in 0..space.areas.len() {
        for j in 0..space.areas.len() {
            if i != j {
                assert!(!space.areas[i].vpn_range.overlaps(&space.areas[j].vpn_range));
            }
        }
    }
}

#[test]
fn area_that_does_not_fit_is_refused_and_frames_come_back() {
    let mut p = pool(6);
    let mut space = MemorySet::new_bare(&mut p).unwrap();
    let perm = MapPermission { bits: PERM_R | PERM_W };
    // Two tables and four pages are one frame too many.
    assert_eq!(
        space.insert_framed_area(&mut p, VirtAddr(0), VirtAddr(0x4000), perm),
        Err(MapError::OutOfMemory)
    );
    assert!(space.areas.is_empty());
    for vpn in 0..4 {
        assert_eq!(space.translate(VirtPageNum(vpn)), None);
    }
    // The tables stay, the pages came back: three pages fit now.
    assert_eq!(free(&p), 3);
    assert_eq!(space.insert_framed_area(&mut p, VirtAddr(0), VirtAddr(0x3000), perm), Ok(()));
    assert_eq!(free(&p), 0);
}

#[test]
fn identical_area_maps_pages_to_themselves() {
    let mut p = pool(16);
    let mut space = MemorySet::new_bare(&mut p).unwrap();
    let area = MapArea::new(
        VirtAddr(0x8020_0000),
        VirtAddr(0x8020_2000),
        MapType::Identical,
        MapPermission { bits: PERM_R | PERM_X },
    );
    assert_eq!(area.vpn_range, VPNRange::new(VirtPageNum(0x80200), VirtPageNum(0x80202)));
    assert_eq!(space.push(&mut p, area, &[]), Ok(()));
    assert_eq!(free(&p), 16 - 3);
    assert!(space.areas[0].data_frames.is_empty());
    let e = space.translate(VirtPageNum(0x80201)).unwrap();
    assert_eq!(e.ppn(), PhysPageNum(0x80201));
    assert_eq!(e.flags().bits, PERM_R | PERM_X | FLAG_V);
    assert_eq!(space.find_frame(VirtPageNum(0x80201)), None);
    assert_eq!(translated_byte_buffer(&space, 0x8020_1000, 4), None);
}

#[test]
fn pushed_data_starts_the_area() {
    let mut p = pool(16);
    let mut space = MemorySet::new_bare(&mut p).unwrap();
    let area = MapArea::new(
        VirtAddr(0x1000),
        VirtAddr(0x3000),
        MapType::Framed,
        MapPermission { bits: PERM_R },
    );
    let data: Vec<u8> = (0..5000u32).map(|i| (i % 251) as u8 + 1).collect();
    assert_eq!(space.push(&mut p, area, &data), Ok(()));
    let read = flat(translated_byte_buffer(&space, 0x1000, 0x2000).unwrap());
    assert_eq!(&read[..5000], &data[..]);
    assert!(read[5000..].iter().all(|b| *b == 0));
}

#[test]
fn user_buffer_is_read_page_by_page() {
    let mut p = pool(16);
    let mut space = MemorySet::new_bare(&mut p).unwrap();
    let perm = MapPermission { bits: PERM_R | PERM_W | PERM_U };
    let (start, end) = (VirtAddr(0x1_0000), VirtAddr(0x1_3000));
    assert_eq!(space.insert_framed_area(&mut p, start, end, perm), Ok(()));
    // The kernel writes through its own access to the frames.
    let text = b"hello, world";
    for (i, b) in text.iter().enumerate() {
        let at = 0xffa + i;
        space.areas[0].data_frames[at / 4096].write_byte(at % 4096, *b);
    }
    space.areas[0].data_frames[2].write_byte(7, 0x5a);
    // The frames need not be next to each other, nor in order.
    assert_eq!(space.find_frame(VirtPageNum(0x11)), Some((0, 1)));
    let chunks = translated_byte_buffer(&space, 0x1_0ffa, text.len()).unwrap();
    assert_eq!(chunks, vec![b"hello,".to_vec(), b" world".to_vec()]);
    let chunks = translated_byte_buffer(&space, 0x1_0ffe, 0x1000 + 2 + 8).unwrap();
    assert_eq!(chunks.len(), 3);
    assert_eq!(chunks[0], b"o,".to_vec());
    assert_eq!(chunks[1].len(), 4096);
    assert_eq!(&chunks[1][..6], b" world");
    assert_eq!(chunks[2], vec![0, 0, 0, 0, 0, 0, 0, 0x5a]);
    assert_eq!(translated_byte_buffer(&space, 0x1_0000, 0x3000).unwrap().len(), 3);
    assert_eq!(translated_byte_buffer(&space, 0x1_2fff, 1), Some(vec![vec![0]]));
    assert_eq!(translated_byte_buffer(&space, 0x1_0005, 0), Some(vec![]));
    // A range that leaves the area is refused.
    assert_eq!(translated_byte_buffer(&space, 0x1_2fff, 2), None);
    assert_eq!(translated_byte_buffer(&space, 0xffff, 2), None);
    assert_eq!(translated_byte_buffer(&space, 0x7f_ffff_ffff, 2), None);
    assert_eq!(translated_byte_buffer(&space, u64::MAX, 1), None);
}

#[test]
fn removing_an_area_unmaps_it_and_returns_its_frames() {
    let mut p = pool(32);
    let mut space = MemorySet::new_bare(&mut p).unwrap();
    let perm = MapPermission { bits: PERM_R | PERM_W };
    assert_eq!(space.insert_framed_area(&mut p, VirtAddr(0x4000), VirtAddr(0x6000), perm), Ok(()));
    assert_eq!(space.insert_framed_area(&mut p, VirtAddr(0x8000), VirtAddr(0x9000), perm), Ok(()));
    let before = free(&p);
    assert!(!space.remove_area_with_start_vpn(&mut p, VirtPageNum(5)));
    assert_eq!(free(&p), before);
    assert!(space.remove_area_with_start_vpn(&mut p, VirtPageNum(4)));
    assert_eq!(free(&p), before + 2);
    assert_eq!(ranges(&space), vec![(8, 9)]);
    assert_eq!(space.translate(VirtPageNum(4)), None);
    assert_eq!(space.translate(VirtPageNum(5)), None);
    assert!(space.translate(VirtPageNum(8)).is_some());
    assert!(!space.remove_area_with_start_vpn(&mut p, VirtPageNum(4)));
    // The pages can be mapped again.
    assert_eq!(space.insert_framed_area(&mut p, VirtAddr(0x5000), VirtAddr(0x6000), perm), Ok(()));
}

#[test]
fn recycling_returns_the_data_frames_and_keeps_the_tables() {
    let mut p = pool(32);
    let mut space = MemorySet::new_bare(&mut p).unwrap();
    let perm = MapPermission { bits: PERM_R | PERM_W };
    assert_eq!(space.insert_framed_area(&mut p, VirtAddr(0x4000), VirtAddr(0x6000), perm), Ok(()));
    assert_eq!(space.insert_framed_area(&mut p, VirtAddr(0x8000), VirtAddr(0x9000), perm), Ok(()));
    let token = space.token();
    assert_eq!(free(&p), 32 - 3 - 3);
    space.recycle_data_pages(&mut p);
    assert!(space.areas.is_empty());
    assert_eq!(free(&p), 32 - 3);
    assert_eq!(space.token(), token);
    space.destroy(&mut p);
    assert_eq!(free(&p), 32);
}

#[test]
fn program_is_laid_out_from_its_image() {
    let mut p = pool(64);
    let code: Vec<u8> = (1..=100).collect();
    let elf = image(
        0x1_0040,
        &[
            (PF_R | PF_X, 0x1_0000, code.clone(), 0x1800),
            (PF_R | PF_W, 0x1_2000, vec![9, 8, 7], 0x1001),
        ],
    );
    let (space, user_sp, entry) = MemorySet::from_elf(&mut p, &elf, PhysPageNum(0x80201)).unwrap();
    assert_eq!(entry, 0x1_0040);
    // Segments end at page 0x14; one guard page; two pages of stack.
    assert_eq!(user_sp, 0x15 * PAGE_SIZE + USER_STACK_SIZE);
    let trap = VirtAddr::new(TRAP_CONTEXT).floor().0;
    assert_eq!(ranges(&space), vec![(0x10, 0x12), (0x12, 0x14), (0x15, 0x17), (trap, trap + 1)]);
    let perms: Vec<u8> = space.areas.iter().map(|a| a.map_perm.bits).collect();
    assert_eq!(
        perms,
        vec![
            PERM_U | PERM_R | PERM_X,
            PERM_U | PERM_R | PERM_W,
            PERM_U | PERM_R | PERM_W,
            PERM_R | PERM_W
        ]
    );
    assert!(space.areas.iter().all(|a| a.map_type == MapType::Framed));
    let text = flat(translated_byte_buffer(&space, 0x1_0000, 0x2000).unwrap());
    assert_eq!(&text[..100], &code[..]);
    assert!(text[100..].iter().all(|b| *b == 0));
    let data = flat(translated_byte_buffer(&space, 0x1_2000, 0x2000).unwrap());
    assert_eq!(&data[..4], &[9, 8, 7, 0]);
    assert!(data[3..].iter().all(|b| *b == 0));
    // The guard page is not mapped; the trampoline is, to the given page.
    assert_eq!(space.translate(VirtPageNum(0x14)), None);
    assert_eq!(space.translate(VirtPageNum(0x17)), None);
    let e = space.translate(VirtAddr::new(TRAMPOLINE).floor()).unwrap();
    assert_eq!(e.ppn(), PhysPageNum(0x80201));
    assert_eq!(e.flags().bits, PERM_R | PERM_X | FLAG_V);
    let stack = space.translate(VirtPageNum(0x16)).unwrap();
    assert_eq!(stack.flags().bits, PERM_R | PERM_W | PERM_U | FLAG_V);
}

#[test]
fn image_without_segments_gets_stack_and_trap_page() {
    let mut p = pool(64);
    let elf = image(0, &[]);
    let (space, user_sp, entry) = MemorySet::from_elf(&mut p, &elf, PhysPageNum(0x80201)).unwrap();
    assert_eq!(entry, 0);
    assert_eq!(user_sp, PAGE_SIZE + USER_STACK_SIZE);
    assert_eq!(space.areas.len(), 2);
    assert_eq!(space.areas[0].vpn_range, VPNRange::new(VirtPageNum(1), VirtPageNum(3)));
}

#[test]
fn malformed_image_is_refused_and_takes_no_frame() {
    let mut p = pool(64);
    let r = MemorySet::from_elf(&mut p, &[1, 2, 3], PhysPageNum(0x80201));
    assert_eq!(r.err(), Some(LoadError::Image(ElfError::TooShort)));
    let mut elf = image(0, &[(PF_R, 0x1000, vec![1], 0x1000)]);
    elf[0] = 0;
    let r = MemorySet::from_elf(&mut p, &elf, PhysPageNum(0x80201));
    assert_eq!(r.err(), Some(LoadError::Image(ElfError::BadMagic)));
    let elf = image(0, &[(PF_R, 0x1000, vec![1, 2], 1)]);
    let r = MemorySet::from_elf(&mut p, &elf, PhysPageNum(0x80201));
    assert_eq!(r.err(), Some(LoadError::Image(ElfError::BadSegment)));
    assert_eq!(free(&p), 64);
}

#[test]
fn overlapping_segments_are_refused_and_frames_come_back() {
    let mut p = pool(64);
    let elf = image(0, &[(PF_R, 0x1000, vec![1], 0x2000), (PF_R, 0x2000, vec![2], 0x1000)]);
    let r = MemorySet::from_elf(&mut p, &elf, PhysPageNum(0x80201));
    assert_eq!(r.err(), Some(LoadError::Space(MapError::AlreadyMapped)));
    assert_eq!(free(&p), 64);
}

#[test]
fn image_that_does_not_fit_is_refused_and_frames_come_back() {
    let elf = image(0, &[(PF_R, 0x1000, vec![1], 0x8000)]);
    for frames in 0..16 {
        let mut p = pool(frames);
        let r = MemorySet::from_elf(&mut p, &elf, PhysPageNum(0x80201));
        assert_eq!(r.err(), Some(LoadError::Space(MapError::OutOfMemory)), "{} frames", frames);
        assert_eq!(free(&p), frames);
    }
    // The root, two tables at the top and two at the bottom of the space,
    // eight pages of the segment, two of stack and one of trap context.
    let mut p = pool(16);
    assert!(MemorySet::from_elf(&mut p, &elf, PhysPageNum(0x80201)).is_ok());
    assert_eq!(free(&p), 0);
}

fn layout() -> KernelLayout {
    KernelLayout {
        stext: 0x8020_0000,
        etext: 0x8020_3000,
        srodata: 0x8020_3000,
        erodata: 0x8020_4000,
        sdata: 0x8020_4000,
        edata: 0x8020_5000,
        sbss: 0x8020_5000,
        ebss: 0x8020_9000,
        ekernel: 0x8020_9000,
        memory_end: 0x8028_0000,
    }
}

#[test]
fn frame_pool_starts_above_the_kernel() {
    let mut p = StackFrameAllocator::new();
    allocator_init(&mut p, &layout());
    assert_eq!((p.start, p.current, p.end), (0x80209, 0x80209, 0x80280));
    assert!(p.recycled.is_empty());
    let mut ragged = layout();
    ragged.ekernel = 0x8020_9001;
    ragged.memory_end = 0x8027_ffff;
    allocator_init(&mut p, &ragged);
    assert_eq!((p.start, p.current, p.end), (0x8020a, 0x8020a, 0x8027f));
    let mut upside_down = layout();
    upside_down.memory_end = 0x8020_0000;
    allocator_init(&mut p, &upside_down);
    assert_eq!((p.start, p.current, p.end), (0x80209, 0x80209, 0x80209));
    assert_eq!(p.allocate(), None);
}

#[test]
fn kernel_space_maps_the_image_and_the_boot_stacks() {
    let mut p = StackFrameAllocator::new();
    allocator_init(&mut p, &layout());
    let space = MemorySet::new_kernel(&mut p, &layout(), PhysPageNum(0x80201), 4).unwrap();
    let mut expected = vec![
        (0x80200, 0x80203),
        (0x80203, 0x80204),
        (0x80204, 0x80205),
        (0x80205, 0x80209),
        (0x80209, 0x80280),
    ];
    for hart in 0..4 {
        let (bottom, top) = hart_stack_position(hart);
        expected.push((bottom / PAGE_SIZE, top / PAGE_SIZE));
    }
    assert_eq!(ranges(&space), expected);
    let perms: Vec<u8> = space.areas.iter().map(|a| a.map_perm.bits).collect();
    let rw = PERM_R | PERM_W;
    assert_eq!(perms, vec![PERM_R | PERM_X, PERM_R, rw, rw, rw, rw, rw, rw, rw]);
    for (i, area) in space.areas.iter().enumerate() {
        if i < 5 {
            assert_eq!(area.map_type, MapType::Identical);
            assert!(area.data_frames.is_empty());
        } else {
            assert_eq!(area.map_type, MapType::Framed);
            assert_eq!(area.data_frames.len(), 2);
        }
    }
    // Identical: every page of the image maps to itself.
    for vpn in [0x80200u64, 0x80202, 0x80203, 0x80208, 0x80209, 0x8027f] {
        assert_eq!(space.translate(VirtPageNum(vpn)).unwrap().ppn(), PhysPageNum(vpn));
    }
    assert_eq!(space.translate(VirtPageNum(0x80280)), None);
    assert_eq!(space.translate(VirtPageNum(0x801ff)), None);
    // A guard page lies between the boot stacks of two harts.
    let (bottom0, _) = hart_stack_position(0);
    assert!(space.translate(VirtPageNum(bottom0 / PAGE_SIZE)).is_some());
    assert_eq!(space.translate(VirtPageNum(bottom0 / PAGE_SIZE - 1)), None);
    let e = space.translate(VirtAddr::new(TRAMPOLINE).floor()).unwrap();
    assert_eq!(e.ppn(), PhysPageNum(0x80201));
}

#[test]
fn kernel_sections_that_share_a_page_are_refused() {
    let mut ragged = layout();
    ragged.ebss = 0x8020_8800;
    ragged.ekernel = 0x8020_8800;
    let mut p = pool(64);
    let r = MemorySet::new_kernel(&mut p, &ragged, PhysPageNum(0x80201), 1);
    assert_eq!(r.err(), Some(MapError::AlreadyMapped));
    assert_eq!(free(&p), 64);
    let mut p = pool(3);
    let r = MemorySet::new_kernel(&mut p, &layout(), PhysPageNum(0x80201), 1);
    assert_eq!(r.err(), Some(MapError::OutOfMemory));
    assert_eq!(free(&p), 3);
}

#[test]
fn space_is_built_from_a_plan() {
    let image: Vec<u8> = (0..=255).collect();
    let plans = vec![
        AreaPlan {
            range: VPNRange::new(VirtPageNum(4), VirtPageNum(6)),
            map_type: MapType::Framed,
            map_perm: MapPermission { bits: PERM_R | PERM_U },
            offset: 16,
            len: 32,
        },
        AreaPlan {
            range: VPNRange::new(VirtPageNum(0x300), VirtPageNum(0x302)),
            map_type: MapType::Identical,
            map_perm: MapPermission { bits: PERM_R | PERM_W },
            offset: 0,
            len: 0,
        },
        AreaPlan {
            range: VPNRange::new(VirtPageNum(600), VirtPageNum(601)),
            map_type: MapType::Framed,
            map_perm: MapPermission { bits: PERM_R | PERM_W },
            offset: 255,
            len: 1,
        },
    ];
    // Three frames for the root and the trampoline; two tables and two
    // pages for the first area; one table for the second; the third shares
    // that table and takes one page.
    for frames in 0..9 {
        let mut p = pool(frames);
        let r = MemorySet::build(&mut p, PhysPageNum(0x80201), &plans, &image);
        assert_eq!(r.err(), Some(MapError::OutOfMemory), "{} frames", frames);
        assert_eq!(free(&p), frames);
    }
    let mut p = pool(9);
    let space = MemorySet::build(&mut p, PhysPageNum(0x80201), &plans, &image).unwrap();
    assert_eq!(free(&p), 0);
    assert_eq!(ranges(&space), vec![(4, 6), (0x300, 0x302), (600, 601)]);
    let first = flat(translated_byte_buffer(&space, 0x4000, 0x2000).unwrap());
    assert_eq!(&first[..32], &image[16..48]);
    assert!(first[32..].iter().all(|b| *b == 0));
    assert_eq!(translated_byte_buffer(&space, 600 * 4096, 2), Some(vec![vec![255, 0]]));
    assert_eq!(space.translate(VirtPageNum(0x301)).unwrap().ppn(), PhysPageNum(0x301));
    // Every frame of the space is handed out, and no other.
    let mut owned: Vec<u64> = Vec::new();
    owned.push(space.page_table.frame.ppn.0);
    for mid in space.page_table.children.iter().flatten() {
        owned.push(mid.frame.ppn.0);
        for leaf in mid.children.iter().flatten() {
            owned.push(leaf.frame.ppn.0);
        }
    }
    for area in &space.areas {
        owned.extend(area.data_frames.iter().map(|f| f.ppn.0));
    }
    owned.sort();
    assert_eq!(owned, (0x80400..0x80409).collect::<Vec<u64>>());
    space.destroy(&mut p);
    assert_eq!(free(&p), 9);
}

#[test]
fn plan_whose_areas_share_a_page_is_refused() {
    let area = |start: u64, end: u64| AreaPlan {
        range: VPNRange::new(VirtPageNum(start), VirtPageNum(end)),
        map_type: MapType::Framed,
        map_perm: MapPermission { bits: PERM_R },
        offset: 0,
        len: 0,
    };
    for plans in [
        vec![area(4, 6), area(5, 7)],
        vec![area(4, 6), area(8, 9), area(0, 5)],
        vec![area(0x7ff_fffe, 0x800_0000)],
    ] {
        let mut p = pool(64);
        let r = MemorySet::build(&mut p, PhysPageNum(0x80201), &plans, &[]);
        assert_eq!(r.err(), Some(MapError::AlreadyMapped));
        assert_eq!(free(&p), 64);
    }
    let mut p = pool(64);
    let plans = vec![area(4, 6), area(6, 6), area(6, 8), area(5, 5)];
    assert!(MemorySet::build(&mut p, PhysPageNum(0x80201), &plans, &[]).is_ok());
}

#[test]
fn kernel_stack_is_mapped_and_released() {
    let mut p = pool(32);
    let mut space = MemorySet::new_bare(&mut p).unwrap();
    let pid = PidHandle(3);
    let (bottom, top) = kernel_stack_position(3);
    let stack = KernelStack::new(&pid, &mut space, &mut p).unwrap();
    assert_eq!(stack.pid, 3);
    assert_eq!(stack.get_top(), top);
    assert_eq!(stack.get_bottom(), bottom);
    assert_eq!(ranges(&space), vec![(bottom / PAGE_SIZE, top / PAGE_SIZE)]);
    assert_eq!(space.areas[0].map_perm.bits, PERM_R | PERM_W);
    // Root, two tables, two pages.
    assert_eq!(free(&p), 32 - 5);
    assert_eq!(space.translate(VirtPageNum(bottom / PAGE_SIZE - 1)), None);
    assert_eq!(space.translate(VirtPageNum(top / PAGE_SIZE)), None);
    let again = KernelStack::new(&pid, &mut space, &mut p);
    assert_eq!(again.err(), Some(MapError::AlreadyMapped));
    assert_eq!(free(&p), 32 - 5);
    assert!(stack.release(&mut space, &mut p));
    assert_eq!(free(&p), 32 - 3);
    assert!(space.areas.is_empty());
    assert!(!KernelStack { pid: 3 }.release(&mut space, &mut p));
    // Without frames for the pages, the tables are taken nevertheless.
    let mut small = pool(4);
    let mut other = MemorySet::new_bare(&mut small).unwrap();
    let r = KernelStack::new(&PidHandle(0), &mut other, &mut small);
    assert_eq!(r.err(), Some(MapError::OutOfMemory));
    assert_eq!(free(&small), 1);
    assert!(other.areas.is_empty());
}

#[test]
fn kernel_writes_reach_user_memory() {
    let mut p = pool(16);
    let mut space = MemorySet::new_bare(&mut p).unwrap();
    let perm = MapPermission { bits: PERM_R | PERM_W | PERM_U };
    assert_eq!(space.insert_framed_area(&mut p, VirtAddr(0x2000), VirtAddr(0x4000), perm), Ok(()));
    assert!(is_readable(&space, 0x2000, 0x2000));
    assert!(is_readable(&space, 0x3fff, 1));
    assert!(is_readable(&space, 0x9000, 0));
    assert!(!is_readable(&space, 0x3fff, 2));
    assert!(!is_readable(&space, 0x1fff, 1));
    assert!(!is_readable(&space, u64::MAX, 1));
    assert!(copy_to_user(&mut space, 0x2ffd, b"abcdef"));
    assert!(copy_to_user(&mut space, 0x2fff, b"X"));
    assert!(copy_to_user(&mut space, 0x3000, b""));
    assert_eq!(flat(translated_byte_buffer(&space, 0x2ffc, 8).unwrap()), b"\0abXdef\0".to_vec());
    // What lands in the frames is what the kernel reads from them.
    assert_eq!(space.areas[0].data_frames[0].read_byte(0xffd), b'a');
    assert_eq!(space.areas[0].data_frames[1].read_byte(2), b'f');
    // A write that leaves the area writes nothing.
    assert!(!copy_to_user(&mut space, 0x3ffe, b"1234"));
    assert_eq!(translated_byte_buffer(&space, 0x3ffe, 2), Some(vec![vec![0, 0]]));
}

#[test]
fn text_is_read_up_to_the_first_zero() {
    let mut p = pool(16);
    let mut space = MemorySet::new_bare(&mut p).unwrap();
    let perm = MapPermission { bits: PERM_R | PERM_U };
    assert_eq!(space.insert_framed_area(&mut p, VirtAddr(0x2000), VirtAddr(0x4000), perm), Ok(()));
    assert!(copy_to_user(&mut space, 0x2ffa, b"initproc\0rest"));
    assert_eq!(translated_str(&space, 0x2ffa), Some(b"initproc".to_vec()));
    assert_eq!(translated_str(&space, 0x3000), Some(b"oc".to_vec()));
    assert_eq!(translated_str(&space, 0x3002), Some(vec![]));
    assert_eq!(translated_str(&space, 0x3003), Some(b"rest".to_vec()));
    // Text that runs into an unmapped page has no end.
    assert!(copy_to_user(&mut space, 0x3ffe, b"ab"));
    assert_eq!(translated_str(&space, 0x3ffe), None);
    assert_eq!(translated_str(&space, 0x1000), None);
    assert_eq!(translated_str(&space, u64::MAX), None);
}

#[test]
fn trampoline_is_mapped_once() {
    let mut p = pool(8);
    let mut space = MemorySet::new_bare(&mut p).unwrap();
    assert_eq!(space.map_trampoline(&mut p, PhysPageNum(0x80201)), Ok(()));
    assert_eq!(free(&p), 8 - 3);
    assert!(space.areas.is_empty());
    let e = space.translate(VirtPageNum(0x7ff_ffff)).unwrap();
    assert_eq!(e.ppn(), PhysPageNum(0x80201));
    assert_eq!(e.flags().bits, PERM_R | PERM_X | FLAG_V);
    assert_eq!(space.map_trampoline(&mut p, PhysPageNum(0x80202)), Err(MapError::AlreadyMapped));
    assert_eq!(space.translate(VirtPageNum(0x7ff_ffff)).unwrap().ppn(), PhysPageNum(0x80201));
    let mut small = pool(2);
    let mut other = MemorySet::new_bare(&mut small).unwrap();
    assert_eq!(other.map_trampoline(&mut small, PhysPageNum(1)), Err(MapError::OutOfMemory));
    assert_eq!(other.translate(VirtPageNum(0x7ff_ffff)), None);
}

#[test]
fn segment_flags_become_permissions() {
    assert_eq!(permission_of(0).bits, PERM_U);
    assert_eq!(permission_of(PF_R).bits, PERM_U | PERM_R);
    assert_eq!(permission_of(PF_W).bits, PERM_U | PERM_W);
    assert_eq!(permission_of(PF_X).bits, PERM_U | PERM_X);
    assert_eq!(permission_of(PF_R | PF_W | PF_X).bits, PERM_U | PERM_R | PERM_W | PERM_X);
    assert_eq!(permission_of(0xffff_fff8).bits, PERM_U);
}

#[test]
fn trap_context_lies_at_the_start_of_its_page() {
    let mut p = pool(64);
    let image = image(0x1000, &[(PF_R, 0x1000, vec![1], 0x1000)]);
    let (mut space, _, _) = MemorySet::from_elf(&mut p, &image, PhysPageNum(0x80201)).unwrap();
    let mut cx = TrapContext::app_init_context(0x1000, 0x5000, 7, 8, 9, 0x100);
    cx.x[31] = 0xfeed;
    space.store_trap_context(&cx);
    assert_eq!(space.load_trap_context(), cx);
    let frame = &space.areas.last().unwrap().data_frames[0];
    assert_eq!(frame.words[2], 0x5000);
    assert_eq!(frame.words[31], 0xfeed);
    assert_eq!(&frame.words[32..37], &[0, 0x1000, 7, 8, 9]);
    assert!(frame.words[37..].iter().all(|w| *w == 0));
    // The page is reached through the translation of its address.
    let bytes = flat(translated_byte_buffer(&space, 0x7f_ffff_e000 + 16, 8).unwrap());
    assert_eq!(bytes, 0x5000u64.to_le_bytes().to_vec());
    let mut other = FrameTracker::new(PhysPageNum(5));
    other.words[40] = 3;
    cx.store(&mut other);
    assert_eq!(TrapContext::load(&other), cx);
    assert_eq!(other.words[40], 3);
    assert_eq!(other.ppn, PhysPageNum(5));
}
