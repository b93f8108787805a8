use vstd::prelude::*;

pub mod address;
pub mod frame_allocator;
pub mod page_table;
pub mod memory_set;
pub mod heap_allocator;
pub mod timer;
pub mod syscall;
pub mod prime;

use crate::address::{PhysAddr, PA_LIMIT, pages_up};
use crate::frame_allocator::FrameAllocator;
use crate::heap_allocator::{HeapAllocator, KERNEL_HEAP_SIZE};

verus! {

/// Sets up the kernel heap arena, empty, and the frame pool over the whole pages
/// between the end of the kernel image and the end of physical memory.
pub fn init(kernel_end: PhysAddr, memory_end: PhysAddr) -> (r: (HeapAllocator, FrameAllocator))
    requires
        kernel_end.0 <= memory_end.0 < PA_LIMIT,
        pages_up(kernel_end.0 as int) <= memory_end.0 / 4096,
    ensures
        r.0.wf(),
        r.0.capacity() == KERNEL_HEAP_SIZE,
        r.0.live().len() == 0,
        r.1@.wf(),
        r.1@.start == pages_up(kernel_end.0 as int),
        r.1@.current == pages_up(kernel_end.0 as int),
        r.1@.end == memory_end.0 / 4096,
        r.1@.recycled.len() == 0,
{
    let heap = HeapAllocator::new(KERNEL_HEAP_SIZE);
    let pool = FrameAllocator::new(kernel_end.ceil(), memory_end.floor());
    (heap, pool)
}

} // verus!
