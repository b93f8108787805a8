use kernel_mm::heap_allocator::{HeapAllocator, HeapBlock, KERNEL_HEAP_SIZE};

#[test]
fn first_fit_reuses_the_lowest_gap() {
    let mut heap = HeapAllocator::new(64);
    let a = heap.alloc_block(16, 1).unwrap();
    let b = heap.alloc_block(16, 1).unwrap();
    let c = heap.alloc_block(16, 1).unwrap();
    assert_eq!((a.start, b.start, c.start), (0, 16, 32));
    heap.dealloc_block(b);
    let d = heap.alloc_block(8, 1).unwrap();
    assert_eq!(d, HeapBlock { start: 16, size: 8 });
    assert!(heap.alloc_block(17, 1).is_none());
    assert_eq!(heap.alloc_block(16, 1).unwrap().start, 48);
}

#[test]
fn heap_stress_keeps_live_blocks_intact() {
    let mut heap = HeapAllocator::new(4096);
    let mut live: Vec<(HeapBlock, u8)> = Vec::new();
    let mut seed: u32 = 12345;
    for round in 0..400u32 {
        seed = seed.wrapping_mul(1103515245).wrapping_add(12345);
        let free_one = seed % 3 == 0 && !live.is_empty();
        if free_one {
            let idx = (seed as usize / 7) % live.len();
            let (blk, tag) = live.swap_remove(idx);
            for off in 0..blk.size {
                assert_eq!(heap.read(blk, off), tag);
            }
            heap.dealloc_block(blk);
        } else {
            let size = 1 + (seed as usize / 11) % 200;
            let align = 1usize << ((seed as usize / 13) % 4);
            if let Some(blk) = heap.alloc_block(size, align) {
                assert_eq!(blk.start % align, 0);
                let tag = (round % 251) as u8;
                for off in 0..size {
                    heap.write(blk, off, tag);
                }
                for (other, _) in &live {
                    assert!(blk.start + blk.size <= other.start || other.start + other.size <= blk.start);
                }
                live.push((blk, tag));
            }
        }
        for (blk, tag) in &live {
            assert_eq!(heap.read(*blk, 0), *tag);
            assert_eq!(heap.read(*blk, blk.size - 1), *tag);
        }
    }
}

#[test]
fn kernel_heap_is_fully_usable() {
    let mut heap = HeapAllocator::new(KERNEL_HEAP_SIZE);
    let all = heap.alloc_block(KERNEL_HEAP_SIZE, 1).unwrap();
    assert_eq!(all.start, 0);
    assert!(heap.alloc_block(1, 1).is_none());
    heap.dealloc_block(all);
    assert!(heap.alloc_block(1, 1).is_some());
}

#[test]
fn aligned_blocks_skip_to_the_next_multiple() {
    let mut heap = HeapAllocator::new(256);
    let a = heap.alloc_block(3, 1).unwrap();
    assert_eq!(a.start, 0);
    let b = heap.alloc_block(8, 16).unwrap();
    assert_eq!(b, HeapBlock { start: 16, size: 8 });
    let c = heap.alloc_block(4, 4).unwrap();
    assert_eq!(c.start, 4);
    assert!(heap.alloc_block(8, 512).is_none());
    assert_eq!(heap.alloc_block(200, 32).unwrap().start, 32);
}
