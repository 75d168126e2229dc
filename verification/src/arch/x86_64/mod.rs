pub mod paging;

use vstd::prelude::*;
use crate::arch::x86_64::paging::{
    hhdm_fits, kernel_mapping_check, kernel_walk_readable, KernelMappingError, PageTableMemory,
};
use crate::boot_info::BootInfo;

verus! {

/// Brings up the x86-64 specific parts: checks the kernel's higher-half mapping, and returns the
/// missing level as an error for the caller to halt on.
pub fn init(mem: &PageTableMemory, boot: &BootInfo, pml4: u64) -> (r: Result<(), KernelMappingError>)
    requires
        hhdm_fits(boot.hhdm_offset),
        kernel_walk_readable(mem@, boot.hhdm_offset, pml4, boot.kernel_virt_base),
    ensures
        r == kernel_mapping_check(mem@, boot.hhdm_offset, pml4, boot.kernel_virt_base),
{
    paging::init(mem, boot, pml4)
}

} // verus!
