use os::config::{PAGE_SIZE, TRAMPOLINE, TRAP_CONTEXT};
use os::mm::address::{PhysAddr, PhysPageNum, VPNRange, VirtAddr, VirtPageNum};
use os::mm::memory_set::trampoline_page;
use os::task::pid::{hart_stack_position, kernel_stack_position, stack_position};

#[test]
fn virtual_addresses_keep_39_bits() {
    assert_eq!(VirtAddr::new(TRAMPOLINE), VirtAddr(0x7f_ffff_f000));
    assert_eq!(VirtAddr::new(TRAP_CONTEXT), VirtAddr(0x7f_ffff_e000));
    assert_eq!(VirtAddr::new(0x1234), VirtAddr(0x1234));
    assert_eq!(VirtPageNum::new(0x800_0005), VirtPageNum(5));
}

#[test]
fn physical_addresses_keep_56_bits() {
    assert_eq!(PhysAddr::new(0xff00_0000_8020_0000), PhysAddr(0x8020_0000));
    assert_eq!(PhysPageNum::new(0x1000_0000_0007), PhysPageNum(7));
}

#[test]
fn floor_and_ceil_round_to_pages() {
    assert_eq!(VirtAddr(0x1000).floor(), VirtPageNum(1));
    assert_eq!(VirtAddr(0x1fff).floor(), VirtPageNum(1));
    assert_eq!(VirtAddr(0x1000).ceil(), VirtPageNum(1));
    assert_eq!(VirtAddr(0x1001).ceil(), VirtPageNum(2));
    assert_eq!(VirtAddr(0).ceil(), VirtPageNum(0));
    assert_eq!(PhysAddr(0x8021_0001).ceil(), PhysPageNum(0x80211));
    assert_eq!(PhysAddr(0x8021_0fff).floor(), PhysPageNum(0x80210));
    assert_eq!(VirtAddr(0x1234).page_offset(), 0x234);
    assert!(VirtAddr(0x3000).aligned());
    assert!(!PhysAddr(0x3001).aligned());
    assert_eq!(VirtPageNum(3).start_addr(), VirtAddr(3 * PAGE_SIZE));
    assert_eq!(PhysPageNum(0x80200).start_addr(), PhysAddr(0x8020_0000));
}

#[test]
fn page_number_splits_into_three_indexes() {
    assert_eq!(VirtPageNum(0).indexes(), (0, 0, 0));
    assert_eq!(VirtPageNum(0x7ff_ffff).indexes(), (511, 511, 511));
    assert_eq!(VirtPageNum((3 << 18) | (2 << 9) | 1).indexes(), (3, 2, 1));
    assert_eq!(VirtPageNum(512).indexes(), (0, 1, 0));
}

#[test]
fn ranges_contain_and_overlap() {
    let a = VPNRange::new(VirtPageNum(2), VirtPageNum(5));
    let b = VPNRange::new(VirtPageNum(5), VirtPageNum(9));
    let c = VPNRange::new(VirtPageNum(4), VirtPageNum(6));
    let empty = VPNRange::new(VirtPageNum(7), VirtPageNum(7));
    assert_eq!(a.len(), 3);
    assert_eq!(empty.len(), 0);
    assert!(a.contains(VirtPageNum(2)));
    assert!(a.contains(VirtPageNum(4)));
    assert!(!a.contains(VirtPageNum(5)));
    assert!(!a.overlaps(&b));
    assert!(a.overlaps(&c));
    assert!(c.overlaps(&b));
    assert!(!empty.overlaps(&b));
}

#[test]
fn trampoline_is_the_last_page() {
    assert_eq!(trampoline_page(), VirtPageNum(0x7ff_ffff));
}

#[test]
fn kernel_stacks_descend_with_guard_pages() {
    // The first four places belong to the harts.
    assert_eq!(hart_stack_position(0), (0x7f_ffff_d000, 0x7f_ffff_f000));
    assert_eq!(hart_stack_position(1), (0x7f_ffff_a000, 0x7f_ffff_c000));
    assert_eq!(stack_position(4), kernel_stack_position(0));
    assert_eq!(kernel_stack_position(0), (0x7f_ffff_1000, 0x7f_ffff_3000));
    assert_eq!(kernel_stack_position(1), (0x7f_fffe_e000, 0x7f_ffff_0000));
    let (bottom0, _) = kernel_stack_position(0);
    let (_, top1) = kernel_stack_position(1);
    assert_eq!(bottom0 - top1, PAGE_SIZE);
}
