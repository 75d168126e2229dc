use monarch::arch;
use monarch::arch::x86_64::paging::{
    map_page, phys_to_virt, unmap_page, KernelMappingError, MapError, PageTable, PageTableEntry,
    PageTableMemory,
};
use monarch::boot_info::{BootInfo, MemoryRegion};
use monarch::memory::allocator::{free_frame_count, init, FrameAllocator};

const HHDM: u64 = 0xFFFF_8000_0000_0000;
const KERNEL_VIRT: u64 = 0xFFFF_FFFF_8000_0000;
const PML4_PHYS: u64 = 0x50000;
const RW: u64 = PageTableEntry::PRESENT | PageTableEntry::WRITABLE;

fn frames(base: u64, pages: u64) -> FrameAllocator {
    let boot = BootInfo {
        hhdm_offset: HHDM,
        kernel_phys_base: 0x80000,
        kernel_virt_base: KERNEL_VIRT,
        memory_map: vec![MemoryRegion { base, length: pages * 4096, usable: true }],
    };
    init(&boot, KERNEL_VIRT, KERNEL_VIRT)
}

fn tables_with_root() -> (PageTableMemory, u64) {
    let mut mem = PageTableMemory::new();
    let pml4 = phys_to_virt(PML4_PHYS, HHDM);
    mem.insert(pml4, PageTable::new());
    (mem, pml4)
}

#[test]
fn entry_bits() {
    let e = PageTableEntry::new(0x1000, RW);
    assert_eq!(e.0, 0x1003);
    assert!(e.is_present());
    assert!(!e.is_huge());
    assert_eq!(e.phys_addr(), 0x1000);
    let h = PageTableEntry::new(0x20_0000, PageTableEntry::PRESENT | PageTableEntry::HUGE_PAGE);
    assert!(h.is_huge());
    let nx = PageTableEntry::new(0xABC_D000, PageTableEntry::PRESENT | PageTableEntry::NO_EXECUTE);
    assert_eq!(nx.phys_addr(), 0xABC_D000);
    assert_eq!(nx.0, 0x8000_0000_0ABC_D001);
}

#[test]
fn missing_entry_is_not_present() {
    let e = PageTableEntry::missing();
    assert_eq!(e.0, 0);
    assert!(!e.is_present());
    assert_eq!(e.phys_addr(), 0);
}

#[test]
fn new_table_is_empty() {
    let t = PageTable::new();
    assert!(t.entries.iter().all(|e| e.0 == 0));
}

#[test]
fn direct_map_translation() {
    assert_eq!(phys_to_virt(0x1000, HHDM), 0xFFFF_8000_0000_1000);
    assert_eq!(phys_to_virt(0, HHDM), HHDM);
}

#[test]
fn map_creates_missing_tables() {
    let (mut mem, pml4) = tables_with_root();
    let mut fa = frames(0x100000, 16);
    assert_eq!(map_page(&mut mem, &mut fa, HHDM, pml4, 0x40_0000, 0x12_3000, RW), Ok(()));
    // Three new tables, in the first three free frames.
    assert_eq!(free_frame_count(&fa), 13);
    assert_eq!(mem.read_entry(pml4, 0).0, 0x10_0003);
    assert_eq!(mem.read_entry(HHDM + 0x10_0000, 0).0, 0x10_1003);
    assert_eq!(mem.read_entry(HHDM + 0x10_1000, 2).0, 0x10_2003);
    assert_eq!(mem.read_entry(HHDM + 0x10_2000, 0).0, 0x12_3003);
    assert!(mem.get(HHDM + 0x10_2000).is_some());
}

#[test]
fn map_twice_is_refused() {
    let (mut mem, pml4) = tables_with_root();
    let mut fa = frames(0x100000, 16);
    assert_eq!(map_page(&mut mem, &mut fa, HHDM, pml4, 0x40_0000, 0x12_3000, RW), Ok(()));
    assert_eq!(
        map_page(&mut mem, &mut fa, HHDM, pml4, 0x40_0000, 0x45_6000, RW),
        Err(MapError::AlreadyMapped)
    );
    assert_eq!(mem.read_entry(HHDM + 0x10_2000, 0).0, 0x12_3003);
}

#[test]
fn neighbouring_page_reuses_tables() {
    let (mut mem, pml4) = tables_with_root();
    let mut fa = frames(0x100000, 16);
    assert_eq!(map_page(&mut mem, &mut fa, HHDM, pml4, 0x40_0000, 0x12_3000, RW), Ok(()));
    assert_eq!(map_page(&mut mem, &mut fa, HHDM, pml4, 0x40_1000, 0x12_4000, RW), Ok(()));
    assert_eq!(free_frame_count(&fa), 13);
    assert_eq!(mem.read_entry(HHDM + 0x10_2000, 1).0, 0x12_4003);
    // The first page still maps where it did.
    assert_eq!(mem.read_entry(HHDM + 0x10_2000, 0).0, 0x12_3003);
}

#[test]
fn unmap_leaves_other_pages_mapped() {
    let (mut mem, pml4) = tables_with_root();
    let mut fa = frames(0x100000, 16);
    assert_eq!(map_page(&mut mem, &mut fa, HHDM, pml4, 0x40_0000, 0x12_3000, RW), Ok(()));
    assert_eq!(map_page(&mut mem, &mut fa, HHDM, pml4, 0x40_1000, 0x12_4000, RW), Ok(()));
    assert_eq!(unmap_page(&mut mem, HHDM, pml4, 0x40_0000), Ok(0x12_3000));
    assert_eq!(unmap_page(&mut mem, HHDM, pml4, 0x40_1000), Ok(0x12_4000));
}

#[test]
fn unmap_returns_the_frame_and_clears_the_entry() {
    let (mut mem, pml4) = tables_with_root();
    let mut fa = frames(0x100000, 16);
    assert_eq!(map_page(&mut mem, &mut fa, HHDM, pml4, 0x40_0000, 0x12_3000, RW), Ok(()));
    assert_eq!(unmap_page(&mut mem, HHDM, pml4, 0x40_0000), Ok(0x12_3000));
    assert_eq!(mem.read_entry(HHDM + 0x10_2000, 0).0, 0);
    assert_eq!(unmap_page(&mut mem, HHDM, pml4, 0x40_0000), Err(MapError::NotMapped));
    // The tables stay, so mapping again takes no frame.
    assert_eq!(map_page(&mut mem, &mut fa, HHDM, pml4, 0x40_0000, 0x77_7000, RW), Ok(()));
    assert_eq!(free_frame_count(&fa), 13);
    assert_eq!(unmap_page(&mut mem, HHDM, pml4, 0x40_0000), Ok(0x77_7000));
}

#[test]
fn unmap_of_unmapped_page() {
    let (mut mem, pml4) = tables_with_root();
    assert_eq!(unmap_page(&mut mem, HHDM, pml4, 0x40_0000), Err(MapError::NotMapped));
}

#[test]
fn map_without_frames_fails() {
    let (mut mem, pml4) = tables_with_root();
    let mut fa = FrameAllocator::new_empty();
    assert_eq!(
        map_page(&mut mem, &mut fa, HHDM, pml4, 0x40_0000, 0x12_3000, RW),
        Err(MapError::OutOfFrames)
    );
    assert_eq!(mem.read_entry(pml4, 0).0, 0);
}

#[test]
fn map_runs_out_midway() {
    let (mut mem, pml4) = tables_with_root();
    let mut fa = frames(0x100000, 2);
    assert_eq!(
        map_page(&mut mem, &mut fa, HHDM, pml4, 0x40_0000, 0x12_3000, RW),
        Err(MapError::OutOfFrames)
    );
    // The two tables made before the allocator ran dry stay linked in.
    assert_eq!(mem.read_entry(pml4, 0).0, 0x10_0003);
    assert_eq!(mem.read_entry(HHDM + 0x10_0000, 0).0, 0x10_1003);
    assert_eq!(free_frame_count(&fa), 0);
}

fn boot() -> BootInfo {
    BootInfo { hhdm_offset: HHDM, kernel_phys_base: 0x200000, kernel_virt_base: KERNEL_VIRT, memory_map: vec![] }
}

#[test]
fn kernel_check_reports_missing_top_entry() {
    let (mem, pml4) = tables_with_root();
    assert_eq!(arch::init(&mem, &boot(), pml4), Err(KernelMappingError::Pml4EntryMissing(511)));
}

#[test]
fn kernel_check_reports_missing_second_entry() {
    let (mut mem, pml4) = tables_with_root();
    mem.write_entry(pml4, 511, PageTableEntry::new(0x60000, RW));
    mem.insert(HHDM + 0x60000, PageTable::new());
    assert_eq!(arch::init(&mem, &boot(), pml4), Err(KernelMappingError::PdptEntryMissing(510)));
}

#[test]
fn kernel_check_passes_when_mapped() {
    let (mut mem, pml4) = tables_with_root();
    mem.write_entry(pml4, 511, PageTableEntry::new(0x60000, RW));
    let mut pdpt = PageTable::new();
    pdpt.entries[510] = PageTableEntry::new(0x61000, RW);
    mem.insert(HHDM + 0x60000, pdpt);
    assert_eq!(arch::x86_64::init(&mem, &boot(), pml4), Ok(()));
}
