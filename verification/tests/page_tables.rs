use os::mm::address::{PhysPageNum, VPNRange, VirtPageNum};
use os::mm::frame_allocator::StackFrameAllocator;
use os::mm::page_table::{
    MapError, PTEFlags, PageTable, PageTableEntry, FLAG_R, FLAG_U, FLAG_V, FLAG_W, FLAG_X,
};

fn pool(frames: u64) -> StackFrameAllocator {
    let mut pool = StackFrameAllocator::new();
    pool.init(PhysPageNum(0x80400), PhysPageNum(0x80400 + frames));
    pool
}

fn free(pool: &StackFrameAllocator) -> u64 {
    pool.recycled.len() as u64 + (pool.end - pool.current)
}

#[test]
fn entry_packs_page_number_and_flags() {
    let flags = PTEFlags::from_bits(FLAG_V | FLAG_R | FLAG_X);
    let e = PageTableEntry::new(PhysPageNum(0x80201), flags);
    assert_eq!(e.bits, (0x80201 << 10) | 0b1011);
    assert_eq!(e.ppn(), PhysPageNum(0x80201));
    assert_eq!(e.flags(), PTEFlags { bits: 0b1011 });
    assert!(e.is_valid());
    assert!(e.readable());
    assert!(!e.writable());
    assert!(e.executable());
    let empty = PageTableEntry::empty();
    assert_eq!(empty.bits, 0);
    assert!(!empty.is_valid());
}

#[test]
fn flags_combine() {
    let f = PTEFlags::from_bits(FLAG_R).with(FLAG_W);
    assert_eq!(f.bits, 6);
    assert!(f.contains(FLAG_R));
    assert!(f.contains(FLAG_R | FLAG_W));
    assert!(!f.contains(FLAG_U));
}

#[test]
fn token_names_mode_and_root() {
    let mut p = pool(4);
    let table = PageTable::new(&mut p).unwrap();
    assert_eq!(table.frame.ppn, PhysPageNum(0x80400));
    assert_eq!(table.token(), (8u64 << 60) | 0x80400);
}

#[test]
fn map_then_translate_then_unmap() {
    let mut p = pool(16);
    let mut table = PageTable::new(&mut p).unwrap();
    let vpn = VirtPageNum((1 << 18) | (2 << 9) | 3);
    assert_eq!(table.translate(vpn), None);
    let rw = PTEFlags::from_bits(FLAG_R | FLAG_W);
    assert_eq!(table.map(&mut p, vpn, PhysPageNum(0x12345), rw), Ok(()));
    // One root, one middle table, one leaf table.
    assert_eq!(free(&p), 16 - 3);
    let e = table.translate(vpn).unwrap();
    assert_eq!(e.ppn(), PhysPageNum(0x12345));
    assert_eq!(e.flags().bits, FLAG_R | FLAG_W | FLAG_V);
    // A neighbour in the same leaf table needs no new table.
    let next = VirtPageNum(vpn.0 + 1);
    assert_eq!(table.translate(next), None);
    assert_eq!(table.map(&mut p, next, PhysPageNum(7), PTEFlags::from_bits(FLAG_X)), Ok(()));
    assert_eq!(free(&p), 16 - 3);
    assert_eq!(table.translate(vpn).unwrap().ppn(), PhysPageNum(0x12345));
    assert_eq!(table.unmap(vpn), Ok(()));
    assert_eq!(table.translate(vpn), None);
    assert_eq!(table.translate(next).unwrap().ppn(), PhysPageNum(7));
}

#[test]
fn mapping_twice_is_refused() {
    let mut p = pool(16);
    let mut table = PageTable::new(&mut p).unwrap();
    let vpn = VirtPageNum(42);
    assert_eq!(table.map(&mut p, vpn, PhysPageNum(1), PTEFlags::from_bits(FLAG_R)), Ok(()));
    assert_eq!(
        table.map(&mut p, vpn, PhysPageNum(2), PTEFlags::from_bits(FLAG_R)),
        Err(MapError::AlreadyMapped)
    );
    assert_eq!(table.translate(vpn).unwrap().ppn(), PhysPageNum(1));
}

#[test]
fn unmapping_what_is_not_mapped_is_refused() {
    let mut p = pool(16);
    let mut table = PageTable::new(&mut p).unwrap();
    assert_eq!(table.unmap(VirtPageNum(42)), Err(MapError::NotMapped));
    let r = PTEFlags::from_bits(FLAG_R);
    assert_eq!(table.map(&mut p, VirtPageNum(42), PhysPageNum(1), r), Ok(()));
    assert_eq!(table.unmap(VirtPageNum(43)), Err(MapError::NotMapped));
    assert_eq!(table.unmap(VirtPageNum(0x800_0000 + 42)), Err(MapError::NotMapped));
    assert_eq!(table.unmap(VirtPageNum(42)), Ok(()));
    assert_eq!(table.unmap(VirtPageNum(42)), Err(MapError::NotMapped));
}

#[test]
fn map_runs_out_of_frames_for_tables() {
    // Room for the root and one more table, but a first mapping needs two.
    let mut p = pool(2);
    let mut table = PageTable::new(&mut p).unwrap();
    assert_eq!(
        table.map(&mut p, VirtPageNum(42), PhysPageNum(1), PTEFlags::from_bits(FLAG_R)),
        Err(MapError::OutOfMemory)
    );
    assert_eq!(free(&p), 0);
    assert_eq!(table.translate(VirtPageNum(42)), None);
    assert!(PageTable::new(&mut p).is_none());
}

#[test]
fn ensure_tables_then_set_entry() {
    let mut p = pool(8);
    let mut table = PageTable::new(&mut p).unwrap();
    let vpn = VirtPageNum(5);
    assert!(table.ensure_tables(&mut p, vpn));
    assert_eq!(free(&p), 8 - 3);
    assert_eq!(table.translate(vpn), None);
    let e = PageTableEntry::new(PhysPageNum(9), PTEFlags::from_bits(FLAG_V | FLAG_R));
    table.set_entry(vpn, e);
    assert_eq!(table.translate(vpn), Some(e));
}

#[test]
fn release_returns_every_table_frame() {
    let mut p = pool(16);
    let mut table = PageTable::new(&mut p).unwrap();
    for vpn in [1u64, 600, 1 << 18, (5 << 18) | (7 << 9)] {
        let r = PTEFlags::from_bits(FLAG_R);
        assert_eq!(table.map(&mut p, VirtPageNum(vpn), PhysPageNum(vpn), r), Ok(()));
    }
    // Root, three middle tables, four leaf tables.
    assert_eq!(free(&p), 16 - 8);
    table.release(&mut p);
    assert_eq!(free(&p), 16);
}

#[test]
fn tables_for_a_range_are_created_once() {
    let mut p = pool(16);
    let mut table = PageTable::new(&mut p).unwrap();
    // Pages 510 to 1025 lie in three leaf tables under one middle table.
    let range = VPNRange::new(VirtPageNum(510), VirtPageNum(1026));
    assert!(table.ensure_tables_for(&mut p, &range));
    assert_eq!(free(&p), 16 - 1 - 4);
    assert!(table.ensure_tables_for(&mut p, &range));
    assert_eq!(free(&p), 16 - 1 - 4);
    assert_eq!(table.translate(VirtPageNum(600)), None);
    // A range over two middle tables, with too few frames left.
    let wide = VPNRange::new(VirtPageNum((1 << 18) - 1), VirtPageNum((1 << 18) + 1));
    let mut small = pool(3);
    let mut other = PageTable::new(&mut small).unwrap();
    assert!(!other.ensure_tables_for(&mut small, &wide));
    assert_eq!(free(&small), 0);
    let empty = VPNRange::new(VirtPageNum(5), VirtPageNum(5));
    assert!(other.ensure_tables_for(&mut small, &empty));
}
