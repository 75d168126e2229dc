pub mod allocator;
pub mod heap;
pub mod manager;

use vstd::prelude::*;
use crate::arch::x86_64::paging::{hhdm_fits, PageTableMemory, PagingState};
use crate::boot_info::BootInfo;
use crate::memory::allocator::{
    init_free, kernel_phys, untracked_total, FrameAllocator, FrameAllocatorModel,
};
use crate::memory::heap::{
    empty_heap, heap_init_failure, map_heap_pages, map_heap_pages_valid, HeapInitError, LinkedListHeap, HEAP_INITIAL_PAGES,
    HEAP_START,
};

verus! {

/// The state that `allocator::init` leaves the frame allocator in, for this boot information and
/// kernel image `[kernel_virt_start, kernel_virt_end)`.
pub open spec fn booted_allocator(
    boot_map: Seq<crate::boot_info::MemoryRegion>,
    kernel_virt_base: u64,
    kernel_phys_base: u64,
    kernel_virt_start: u64,
    kernel_virt_end: u64,
    a: FrameAllocatorModel,
) -> bool {
    &&& a.wf()
    &&& a.next_search_word == 0
    &&& a.counter_matches()
    &&& a.untracked_frames == untracked_total(boot_map)
    &&& a.free_set() == init_free(
        boot_map,
        kernel_phys(kernel_virt_base, kernel_phys_base, kernel_virt_start),
        kernel_phys(kernel_virt_base, kernel_phys_base, kernel_virt_end),
    )
}

/// The kernel's memory: the physical frame allocator and the heap.
pub struct KernelMemory {
    pub frames: FrameAllocator,
    pub heap: LinkedListHeap,
}

/// Brings up memory management: the frame allocator from the boot memory map and the kernel image
/// `[kernel_virt_start, kernel_virt_end)`, the memory manager, then the kernel heap, whose pages
/// are mapped through the tables rooted at `pml4`.
pub fn init(
    boot: &BootInfo,
    kernel_virt_start: u64,
    kernel_virt_end: u64,
    tables: &mut PageTableMemory,
    pml4: u64,
) -> (r: Result<KernelMemory, HeapInitError>)
    requires
        boot.kernel_virt_base <= kernel_virt_start,
        boot.kernel_virt_base <= kernel_virt_end,
        kernel_virt_start - boot.kernel_virt_base + boot.kernel_phys_base <= u64::MAX,
        kernel_virt_end - boot.kernel_virt_base + boot.kernel_phys_base <= u64::MAX,
        hhdm_fits(boot.hhdm_offset),
        forall|a: FrameAllocatorModel|
            #[trigger] booted_allocator(
                boot.memory_map@,
                boot.kernel_virt_base,
                boot.kernel_phys_base,
                kernel_virt_start,
                kernel_virt_end,
                a,
            ) ==> map_heap_pages_valid(
                PagingState { mem: old(tables)@, frames: a },
                boot.hhdm_offset,
                pml4,
                HEAP_START,
                HEAP_INITIAL_PAGES as nat,
            ),
    ensures
        exists|a: FrameAllocatorModel|
            #[trigger] booted_allocator(
                boot.memory_map@,
                boot.kernel_virt_base,
                boot.kernel_phys_base,
                kernel_virt_start,
                kernel_virt_end,
                a,
            ) && {
                let (s, ok) = map_heap_pages(
                    PagingState { mem: old(tables)@, frames: a },
                    boot.hhdm_offset,
                    pml4,
                    HEAP_START,
                    HEAP_INITIAL_PAGES as nat,
                );
                &&& final(tables)@ == s.mem
                &&& (r is Ok) == ok
                &&& (match r {
                    Err(e) => heap_init_failure(PagingState { mem: old(tables)@, frames: a }, boot.hhdm_offset, pml4, e),
                    Ok(_) => true,
                })
                &&& r matches Ok(km) ==> {
                    &&& km.frames@ == s.frames
                    &&& km.frames@.wf()
                    &&& km.heap@ == empty_heap(HEAP_START).grown(HEAP_INITIAL_PAGES as int)
                    &&& km.heap@.wf()
                    &&& km.heap@.tidy()
                }
            },
{
    let mut frames = allocator::init(boot, kernel_virt_start, kernel_virt_end);
    let _free = manager::init(&frames);
    let ghost a0 = frames@;
    assert(booted_allocator(
        boot.memory_map@,
        boot.kernel_virt_base,
        boot.kernel_phys_base,
        kernel_virt_start,
        kernel_virt_end,
        a0,
    ));
    match heap::init(tables, &mut frames, boot.hhdm_offset, pml4) {
        Ok(heap) => Ok(KernelMemory { frames, heap }),
        Err(e) => Err(e),
    }
}

} // verus!
