use monarch::arch::x86_64::paging::{KernelMappingError, PageTable, PageTableEntry, PageTableMemory};
use monarch::boot_info::{BootInfo, MemoryRegion};
use monarch::memory::heap::{HeapInitError, HEAP_START};
use monarch::{init, KernelInitError};

const HHDM: u64 = 0xFFFF_8000_0000_0000;
const KERNEL_VIRT: u64 = 0xFFFF_FFFF_8000_0000;
const RW: u64 = PageTableEntry::PRESENT | PageTableEntry::WRITABLE;

fn boot(pages: u64) -> BootInfo {
    BootInfo {
        hhdm_offset: HHDM,
        kernel_phys_base: 0x80000,
        kernel_virt_base: KERNEL_VIRT,
        memory_map: vec![
            MemoryRegion { base: 0, length: 0x80000, usable: false },
            MemoryRegion { base: 0x100000, length: pages * 4096, usable: true },
        ],
    }
}

/// Tables that map the kernel's higher half down to the second level.
fn kernel_tables() -> (PageTableMemory, u64) {
    let mut mem = PageTableMemory::new();
    let pml4 = HHDM + 0x50000;
    let mut top = PageTable::new();
    top.entries[511] = PageTableEntry::new(0x60000, RW);
    mem.insert(pml4, top);
    let mut pdpt = PageTable::new();
    pdpt.entries[510] = PageTableEntry::new(0x61000, RW);
    mem.insert(HHDM + 0x60000, pdpt);
    (mem, pml4)
}

#[test]
fn kernel_comes_up_with_frames_and_heap() {
    let (mut mem, pml4) = kernel_tables();
    let b = boot(2048);
    match init(&b, KERNEL_VIRT, KERNEL_VIRT + 0x3000, &mut mem, pml4) {
        Ok(mut km) => {
            assert_eq!(km.frames.free_frames(), 2048 - 1028);
            let p = km.heap.allocate(32, 8, &mut mem, &mut km.frames, HHDM, pml4);
            assert_eq!(p, HEAP_START + 16);
        }
        Err(e) => panic!("init failed: {:?}", e),
    }
}

#[test]
fn kernel_init_stops_at_a_missing_mapping() {
    let mut mem = PageTableMemory::new();
    let pml4 = HHDM + 0x50000;
    mem.insert(pml4, PageTable::new());
    match init(&boot(2048), KERNEL_VIRT, KERNEL_VIRT, &mut mem, pml4) {
        Err(e) => assert_eq!(e, KernelInitError::KernelMapping(KernelMappingError::Pml4EntryMissing(511))),
        Ok(_) => panic!("init should fail"),
    }
    // Memory was not touched: no table was added for the heap.
    assert_eq!(mem.read_entry(pml4, 384).0, 0);
}

#[test]
fn kernel_init_reports_a_heap_without_frames() {
    let (mut mem, pml4) = kernel_tables();
    match init(&boot(10), KERNEL_VIRT, KERNEL_VIRT, &mut mem, pml4) {
        Err(e) => assert_eq!(e, KernelInitError::Heap(HeapInitError::OutOfFrames)),
        Ok(_) => panic!("init should fail"),
    }
}

#[test]
fn memory_init_alone() {
    let (mut mem, pml4) = kernel_tables();
    let b = boot(1100);
    match monarch::memory::init(&b, KERNEL_VIRT, KERNEL_VIRT, &mut mem, pml4) {
        Ok(km) => assert_eq!(km.frames.free_frames(), 1100 - 1028),
        Err(e) => panic!("memory init failed: {:?}", e),
    }
}
