use kernel_mm::address::{PhysPageNum, VirtPageNum};
use kernel_mm::frame_allocator::FrameAllocator;
use kernel_mm::page_table::{PTEFlags, PageTable, PageTableEntry, PTE_R, PTE_U, PTE_V, PTE_W, PTE_X};

fn pool() -> FrameAllocator {
    FrameAllocator::new(PhysPageNum(0x100), PhysPageNum(0x200))
}

#[test]
fn entry_layout_is_bit_exact() {
    let e = PageTableEntry::new(PhysPageNum(0x80201), PTEFlags { bits: PTE_V | PTE_R | PTE_W });
    assert_eq!(e.bits, (0x80201u64 << 10) | 0b111);
    assert_eq!(e.ppn(), PhysPageNum(0x80201));
    assert_eq!(e.flags(), PTEFlags { bits: 0b111 });
    assert!(e.is_valid() && e.readable() && e.writable());
    assert!(!e.executable() && !e.user());
    assert!(!PageTableEntry::empty().is_valid());
}

#[test]
fn map_translate_round_trip() {
    let mut pool = pool();
    let mut pt = PageTable::new(&mut pool).unwrap();
    let vpn = VirtPageNum(0x12345);
    assert!(pt.translate(vpn).is_none());
    assert!(pt.map(vpn, PhysPageNum(0x777), PTEFlags { bits: PTE_R | PTE_X }, &mut pool));
    let e = pt.translate(vpn).unwrap();
    assert_eq!(e.ppn(), PhysPageNum(0x777));
    assert_eq!(e.flags().bits, PTE_R | PTE_X | PTE_V);
    assert!(pt.translate(VirtPageNum(0x12346)).is_none());
    pt.unmap(vpn);
    assert!(pt.translate(vpn).is_none());
}

#[test]
fn nodes_are_made_once_per_path() {
    let mut pool = pool();
    let before = pool.free_count();
    let mut pt = PageTable::new(&mut pool).unwrap();
    assert!(pt.map(VirtPageNum(0), PhysPageNum(1), PTEFlags { bits: PTE_R }, &mut pool));
    assert_eq!(before - pool.free_count(), 3);
    assert!(pt.map(VirtPageNum(1), PhysPageNum(2), PTEFlags { bits: PTE_R }, &mut pool));
    assert_eq!(before - pool.free_count(), 3);
    assert!(pt.map(VirtPageNum(512), PhysPageNum(3), PTEFlags { bits: PTE_R }, &mut pool));
    assert_eq!(before - pool.free_count(), 4);
    assert_eq!(pt.translate(VirtPageNum(1)).unwrap().ppn(), PhysPageNum(2));
    assert_eq!(pt.translate(VirtPageNum(512)).unwrap().ppn(), PhysPageNum(3));
    pt.destroy(&mut pool);
    assert_eq!(pool.free_count(), before);
}

#[test]
fn map_fails_cleanly_when_pool_is_dry() {
    let mut pool = FrameAllocator::new(PhysPageNum(0x100), PhysPageNum(0x102));
    let mut pt = PageTable::new(&mut pool).unwrap();
    assert!(!pt.map(VirtPageNum(7), PhysPageNum(9), PTEFlags { bits: PTE_R }, &mut pool));
    assert_eq!(pool.free_count(), 0);
    assert!(pt.translate(VirtPageNum(7)).is_none());
}

#[test]
fn token_selects_three_level_mode() {
    let mut pool = pool();
    let pt = PageTable::new(&mut pool).unwrap();
    assert_eq!(pt.token(), (8u64 << 60) | 0x100);
    let _ = PTE_U;
}

#[test]
fn nodes_hold_the_hardware_table() {
    let mut pool = pool();
    let mut pt = PageTable::new(&mut pool).unwrap();
    let vpn = VirtPageNum((1 << 18) | (2 << 9) | 3);
    assert!(pt.map(vpn, PhysPageNum(0x999), PTEFlags { bits: PTE_R | PTE_W }, &mut pool));
    assert_eq!(pt.nodes(), 3);
    assert_eq!(pt.node_frame(0), PhysPageNum(0x100));
    let top = pt.node_entry(0, 1);
    assert!(top.is_valid() && !top.readable());
    assert_eq!(top.ppn(), pt.node_frame(1));
    let mid = pt.node_entry(1, 2);
    assert_eq!(mid.ppn(), pt.node_frame(2));
    let leaf = pt.node_entry(2, 3);
    assert_eq!(leaf.ppn(), PhysPageNum(0x999));
    assert!(!pt.node_entry(2, 4).is_valid());
}
