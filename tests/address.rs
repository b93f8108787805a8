use kernel_mm::address::{PhysAddr, PhysPageNum, VirtAddr, VirtPageNum};

#[test]
fn floor_and_ceil_of_addresses() {
    let a = PhysAddr::new(0x8020_1234);
    assert_eq!(a.floor(), PhysPageNum(0x80201));
    assert_eq!(a.ceil(), PhysPageNum(0x80202));
    assert_eq!(a.page_offset(), 0x234);
    assert!(!a.aligned());
    let b = PhysAddr::new(0x8020_0000);
    assert_eq!(b.floor(), b.ceil());
    assert!(b.aligned());
    assert_eq!(VirtAddr::new(0).ceil(), VirtPageNum(0));
}

#[test]
fn out_of_range_values_are_masked() {
    assert_eq!(PhysAddr::new(0x0100_0000_0000_0001).0, 1);
    assert_eq!(VirtAddr::new(0x80_0000_1000).0, 0x1000);
    assert_eq!(PhysPageNum::new(0x1000_0000_0002).0, 2);
    assert_eq!(VirtPageNum::new(0x800_0003).0, 3);
}

#[test]
fn page_numbers_to_addresses() {
    assert_eq!(PhysPageNum(0x80201).addr(), PhysAddr(0x8020_1000));
    assert_eq!(VirtPageNum(0x7ff_ffff).addr(), VirtAddr(0x7f_ffff_f000));
    assert_eq!(VirtPageNum(0x800_0001).addr(), VirtAddr(0x1000));
}

#[test]
fn vpn_indexes_most_significant_first() {
    let v = VirtPageNum((3 << 18) | (5 << 9) | 7);
    assert_eq!(v.indexes(), [3, 5, 7]);
    assert_eq!(VirtPageNum(0x7ff_ffff).indexes(), [511, 511, 511]);
}
