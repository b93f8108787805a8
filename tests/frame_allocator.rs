use kernel_mm::address::{PhysAddr, PhysPageNum};
use kernel_mm::frame_allocator::FrameAllocator;
use kernel_mm::init;

#[test]
fn eight_frames_then_exhaustion_then_lifo_reuse() {
    let mut pool = FrameAllocator::new(PhysPageNum(0x80400), PhysPageNum(0x80408));
    assert_eq!(pool.free_count(), 8);
    let mut frames = Vec::new();
    for k in 0..8u64 {
        let f = pool.alloc_frame().expect("pool has frames");
        assert_eq!(f.ppn(), PhysPageNum(0x80400 + k));
        frames.push(f);
    }
    let mut seen: Vec<u64> = frames.iter().map(|f| f.ppn().0).collect();
    seen.sort();
    seen.dedup();
    assert_eq!(seen.len(), 8);
    assert!(pool.alloc_frame().is_none());
    assert_eq!(pool.free_count(), 0);
    let third = frames.remove(2);
    let third_ppn = third.ppn();
    pool.dealloc_frame(third);
    assert_eq!(pool.free_count(), 1);
    let again = pool.alloc_frame().expect("one frame was freed");
    assert_eq!(again.ppn(), third_ppn);
    for f in &frames {
        assert_ne!(f.ppn(), again.ppn());
    }
}

#[test]
fn most_recently_freed_comes_first() {
    let mut pool = FrameAllocator::new(PhysPageNum(10), PhysPageNum(20));
    let a = pool.alloc_frame().unwrap();
    let b = pool.alloc_frame().unwrap();
    let (pa, pb) = (a.ppn(), b.ppn());
    pool.dealloc_frame(a);
    pool.dealloc_frame(b);
    assert_eq!(pool.alloc_frame().unwrap().ppn(), pb);
    assert_eq!(pool.alloc_frame().unwrap().ppn(), pa);
    assert_eq!(pool.alloc_frame().unwrap().ppn(), PhysPageNum(12));
}

#[test]
fn empty_pool_fails_at_once() {
    let mut pool = FrameAllocator::new(PhysPageNum(5), PhysPageNum(5));
    assert!(pool.alloc_frame().is_none());
    assert_eq!(pool.free_count(), 0);
}

#[test]
fn init_covers_whole_pages_after_kernel() {
    let (mut heap, mut pool) = init(PhysAddr(0x8020_0800), PhysAddr(0x8021_0000));
    assert!(heap.alloc_block(4096, 8).is_some());
    assert_eq!(pool.free_count(), 0x80210 - 0x80201);
    assert_eq!(pool.alloc_frame().unwrap().ppn(), PhysPageNum(0x80201));
}

#[test]
fn frames_stay_inside_the_pool() {
    let mut pool = FrameAllocator::new(PhysPageNum(0x80), PhysPageNum(0x84));
    while let Some(f) = pool.alloc_frame() {
        assert!(f.ppn().0 >= 0x80 && f.ppn().0 < 0x84);
    }
}
