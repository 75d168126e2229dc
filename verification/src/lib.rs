pub mod arch;
pub mod boot_info;
pub mod memory;
pub mod sync;
pub mod terminal;

use vstd::prelude::*;
use crate::arch::x86_64::paging::{
    hhdm_fits, kernel_mapping_check, kernel_walk_readable, KernelMappingError, PageTableMemory,
    PagingState,
};
use crate::boot_info::BootInfo;
use crate::memory::allocator::FrameAllocatorModel;
use crate::memory::heap::{
    empty_heap, heap_init_failure, map_heap_pages, map_heap_pages_valid, HeapInitError, HEAP_INITIAL_PAGES, HEAP_START,
};
use crate::memory::{booted_allocator, KernelMemory};

verus! {

/// Why the kernel could not be brought up.
#[derive(Debug, PartialEq, Eq, Structural)]
pub enum KernelInitError {
    /// The kernel's higher-half mapping is not in place.
    KernelMapping(KernelMappingError),
    /// The kernel heap could not be set up.
    Heap(HeapInitError),
}

/// Initializes the kernel: first the architecture (which checks the kernel's higher-half mapping
/// in the tables rooted at `pml4`), then memory management. Memory is not touched when the
/// architecture check fails. A boot that cannot go on gets its reason back as an error rather
/// than a halt; the caller halts.
pub fn init(
    boot: &BootInfo,
    kernel_virt_start: u64,
    kernel_virt_end: u64,
    tables: &mut PageTableMemory,
    pml4: u64,
) -> (r: Result<KernelMemory, KernelInitError>)
    requires
        hhdm_fits(boot.hhdm_offset),
        kernel_walk_readable(old(tables)@, boot.hhdm_offset, pml4, boot.kernel_virt_base),
        boot.kernel_virt_base <= kernel_virt_start,
        boot.kernel_virt_base <= kernel_virt_end,
        kernel_virt_start - boot.kernel_virt_base + boot.kernel_phys_base <= u64::MAX,
        kernel_virt_end - boot.kernel_virt_base + boot.kernel_phys_base <= u64::MAX,
        forall|a: FrameAllocatorModel|
            #[trigger] booted_allocator(
                boot.memory_map@,
                boot.kernel_virt_base,
                boot.kernel_phys_base,
                kernel_virt_start,
                kernel_virt_end,
                a,
            ) ==> map_heap_pages_valid(
                PagingState { mem: old(tables)@, frames: a },
                boot.hhdm_offset,
                pml4,
                HEAP_START,
                HEAP_INITIAL_PAGES as nat,
            ),
    ensures
        match kernel_mapping_check(old(tables)@, boot.hhdm_offset, pml4, boot.kernel_virt_base) {
            Err(e) => r == Err::<KernelMemory, KernelInitError>(KernelInitError::KernelMapping(e))
                && final(tables)@ == old(tables)@,
            Ok(()) => exists|a: FrameAllocatorModel|
                #[trigger] booted_allocator(
                    boot.memory_map@,
                    boot.kernel_virt_base,
                    boot.kernel_phys_base,
                    kernel_virt_start,
                    kernel_virt_end,
                    a,
                ) && {
                    let (s, ok) = map_heap_pages(
                        PagingState { mem: old(tables)@, frames: a },
                        boot.hhdm_offset,
                        pml4,
                        HEAP_START,
                        HEAP_INITIAL_PAGES as nat,
                    );
                    &&& final(tables)@ == s.mem
                    &&& (r is Ok) == ok
                    &&& (match r {
                        Err(KernelInitError::Heap(e)) => heap_init_failure(
                            PagingState { mem: old(tables)@, frames: a },
                            boot.hhdm_offset,
                            pml4,
                            e,
                        ),
                        Err(KernelInitError::KernelMapping(_)) => false,
                        Ok(_) => true,
                    })
                    &&& r matches Ok(km) ==> {
                        &&& km.frames@ == s.frames
                        &&& km.frames@.wf()
                        &&& km.heap@ == empty_heap(HEAP_START).grown(HEAP_INITIAL_PAGES as int)
                        &&& km.heap@.wf()
                        &&& km.heap@.tidy()
                    }
                },
        },
{
    match arch::init(tables, boot, pml4) {
        Err(e) => return Err(KernelInitError::KernelMapping(e)),
        Ok(()) => {},
    }
    match memory::init(boot, kernel_virt_start, kernel_virt_end, tables, pml4) {
        Ok(km) => Ok(km),
        Err(e) => Err(KernelInitError::Heap(e)),
    }
}

} // verus!
