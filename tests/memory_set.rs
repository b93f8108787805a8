use kernel_mm::address::{PhysPageNum, VirtAddr, VirtPageNum};
use kernel_mm::frame_allocator::FrameAllocator;
use kernel_mm::memory_set::{ElfSegment, KernelLayout, MemorySet, TRAMPOLINE_VPN};
use kernel_mm::page_table::{PTE_R, PTE_U, PTE_V, PTE_W, PTE_X};

fn layout() -> KernelLayout {
    KernelLayout {
        stext: 0x8020_0000,
        etext: 0x8020_3000,
        srodata: 0x8020_3000,
        erodata: 0x8020_5000,
        sdata: 0x8020_5000,
        edata: 0x8020_6000,
        sbss: 0x8020_6000,
        ebss: 0x8020_8000,
        ekernel: 0x8020_8000,
        memory_end: 0x8022_0000,
        strampoline: 0x8020_2000,
    }
}

#[test]
fn kernel_sections_have_their_permissions() {
    // exactly the pool that boot sets up for this layout
    let (_, mut pool) = kernel_mm::init(kernel_mm::address::PhysAddr(0x8020_8000), kernel_mm::address::PhysAddr(0x8022_0000));
    let ks = MemorySet::new_kernel(&layout(), &mut pool).unwrap();
    for v in 0x80200..0x80203u64 {
        let e = ks.translate(VirtPageNum(v)).unwrap();
        assert!(e.executable() && !e.writable() && e.readable());
        assert_eq!(e.ppn(), PhysPageNum(v));
    }
    for v in 0x80203..0x80205u64 {
        let e = ks.translate(VirtPageNum(v)).unwrap();
        assert!(!e.writable() && !e.executable() && e.readable());
    }
    for v in 0x80205..0x80208u64 {
        let e = ks.translate(VirtPageNum(v)).unwrap();
        assert!(e.writable() && !e.executable());
    }
    for v in 0x80208..0x80220u64 {
        assert_eq!(ks.translate(VirtPageNum(v)).unwrap().ppn(), PhysPageNum(v));
    }
    assert!(ks.translate(VirtPageNum(0x80220)).is_none());
    let tramp = ks.translate(VirtPageNum(TRAMPOLINE_VPN)).unwrap();
    assert_eq!(tramp.ppn(), PhysPageNum(0x80202));
    assert!(tramp.executable() && !tramp.writable());
    assert!(ks.translate(VirtPageNum(0x801ff)).is_none());
}

#[test]
fn teardown_returns_every_frame() {
    let mut pool = FrameAllocator::new(PhysPageNum(0x1000), PhysPageNum(0x1100));
    let before = pool.free_count();
    let mut ms = MemorySet::new_bare(&mut pool).unwrap();
    assert!(ms.insert_framed_area(VirtAddr(0x10000), VirtAddr(0x14000), PTE_R | PTE_W | PTE_U, &mut pool));
    // four data frames, root, one middle node, one leaf node
    assert_eq!(before - pool.free_count(), 4 + 3);
    let e = ms.translate(VirtPageNum(0x10)).unwrap();
    assert_eq!(e.flags().bits, PTE_R | PTE_W | PTE_U | PTE_V);
    ms.destroy(&mut pool);
    assert_eq!(pool.free_count(), before);
}

#[test]
fn overlapping_area_is_refused() {
    let mut pool = FrameAllocator::new(PhysPageNum(0x1000), PhysPageNum(0x1100));
    let mut ms = MemorySet::new_bare(&mut pool).unwrap();
    assert!(ms.insert_framed_area(VirtAddr(0x10000), VirtAddr(0x12000), PTE_R, &mut pool));
    let free = pool.free_count();
    assert!(!ms.insert_framed_area(VirtAddr(0x11800), VirtAddr(0x13000), PTE_R, &mut pool));
    assert_eq!(pool.free_count(), free);
    assert!(ms.translate(VirtPageNum(0x12)).is_none());
    assert!(ms.insert_framed_area(VirtAddr(0x12000), VirtAddr(0x13000), PTE_R, &mut pool));
    assert!(ms.translate(VirtPageNum(0x12)).is_some());
}

#[test]
fn framed_pages_get_distinct_frames() {
    let mut pool = FrameAllocator::new(PhysPageNum(0x1000), PhysPageNum(0x1100));
    let mut ms = MemorySet::new_bare(&mut pool).unwrap();
    assert!(ms.insert_framed_area(VirtAddr(0x20000), VirtAddr(0x20000 + 8 * 4096), PTE_R | PTE_W, &mut pool));
    let mut ppns: Vec<u64> = (0x20..0x28u64).map(|v| ms.translate(VirtPageNum(v)).unwrap().ppn().0).collect();
    ppns.sort();
    ppns.dedup();
    assert_eq!(ppns.len(), 8);
    assert_eq!(ms.read_byte(VirtAddr(0x20000 + 5000)), Some(0));
}

#[test]
fn kernel_space_fails_and_gives_back_when_pool_is_small() {
    let mut pool = FrameAllocator::new(PhysPageNum(0x90000), PhysPageNum(0x90002));
    assert!(MemorySet::new_kernel(&layout(), &mut pool).is_none());
    assert_eq!(pool.free_count(), 2);
}

#[test]
fn token_of_a_space() {
    let mut pool = FrameAllocator::new(PhysPageNum(0x1000), PhysPageNum(0x1100));
    let ms = MemorySet::new_bare(&mut pool).unwrap();
    assert_eq!(ms.token(), 0x8000_0000_0000_1000);
}

#[test]
fn user_space_from_segments() {
    let mut pool = FrameAllocator::new(PhysPageNum(0x1000), PhysPageNum(0x1100));
    let before = pool.free_count();
    let segments = vec![
        ElfSegment { start_va: 0x10000, end_va: 0x11800, perm: PTE_R | PTE_X, data: vec![0x13, 0x05, 0x10, 0x00] },
        ElfSegment { start_va: 0x12000, end_va: 0x13000, perm: PTE_R | PTE_W, data: (0..=255u8).cycle().take(0x1000).collect() },
    ];
    let (ms, sp, entry) = MemorySet::from_elf(&segments, 0x10000, PhysPageNum(0x80205), &mut pool).unwrap();
    assert_eq!(entry, 0x10000);
    // guard page at 0x13, stack at 0x14 and 0x15
    assert_eq!(sp, 0x16000);
    assert!(ms.translate(VirtPageNum(0x13)).is_none());
    let stack = ms.translate(VirtPageNum(0x15)).unwrap();
    assert_eq!(stack.flags().bits, PTE_R | PTE_W | PTE_U | PTE_V);
    let text = ms.translate(VirtPageNum(0x11)).unwrap();
    assert!(text.executable() && text.user() && !text.writable());
    let data = ms.translate(VirtPageNum(0x12)).unwrap();
    assert!(data.writable() && data.user());
    let tramp = ms.translate(VirtPageNum(TRAMPOLINE_VPN)).unwrap();
    assert_eq!(tramp.ppn(), PhysPageNum(0x80205));
    assert!(tramp.executable() && !tramp.user());
    assert_eq!(ms.read_byte(VirtAddr(0x10000)), Some(0x13));
    assert_eq!(ms.read_byte(VirtAddr(0x10001)), Some(0x05));
    assert_eq!(ms.read_byte(VirtAddr(0x10004)), Some(0));
    assert_eq!(ms.read_byte(VirtAddr(0x11fff)), Some(0));
    assert_eq!(ms.read_byte(VirtAddr(0x12000 + 300)), Some(44));
    assert_eq!(ms.read_byte(VirtAddr(0x12fff)), Some(255));
    assert_eq!(ms.read_byte(VirtAddr(0x13000)), None);
    assert_eq!(ms.read_byte(VirtAddr(0x15000)), Some(0));
    assert_eq!(ms.read_byte(VirtAddr(TRAMPOLINE_VPN * 4096)), None);
    ms.destroy(&mut pool);
    assert_eq!(pool.free_count(), before);
}

#[test]
fn overlapping_segments_are_refused() {
    let mut pool = FrameAllocator::new(PhysPageNum(0x1000), PhysPageNum(0x1100));
    let before = pool.free_count();
    let segments = vec![
        ElfSegment { start_va: 0x10000, end_va: 0x11800, perm: PTE_R, data: Vec::new() },
        ElfSegment { start_va: 0x11000, end_va: 0x12000, perm: PTE_R, data: Vec::new() },
    ];
    assert!(MemorySet::from_elf(&segments, 0, PhysPageNum(1), &mut pool).is_none());
    assert_eq!(pool.free_count(), before);
}

#[test]
fn teardown_puts_frames_back_on_the_free_list() {
    let mut pool = FrameAllocator::new(PhysPageNum(0x1000), PhysPageNum(0x1010));
    let mut ms = MemorySet::new_bare(&mut pool).unwrap();
    assert!(ms.insert_framed_area(VirtAddr(0), VirtAddr(0x2000), PTE_R, &mut pool));
    let used = 16 - pool.free_count();
    assert_eq!(used, 5);
    ms.destroy(&mut pool);
    assert_eq!(pool.free_count(), 16);
    // the released frames come back first, before untouched ones
    for _ in 0..used {
        assert!(pool.alloc_frame().unwrap().ppn().0 < 0x1005);
    }
    assert_eq!(pool.alloc_frame().unwrap().ppn(), PhysPageNum(0x1005));
}
