use monarch::arch::x86_64::paging::{phys_to_virt, PageTable, PageTableMemory};
use monarch::boot_info::{BootInfo, MemoryRegion};
use monarch::memory::allocator::{free_frame_count, init as frames_init, FrameAllocator};
use monarch::memory::heap::{init, HeapInitError, LinkedListHeap, HEAP_INITIAL_PAGES, HEAP_START, PAGE_SIZE};

const HHDM: u64 = 0xFFFF_8000_0000_0000;
const KERNEL_VIRT: u64 = 0xFFFF_FFFF_8000_0000;
const HEAP_BYTES: u64 = HEAP_INITIAL_PAGES * PAGE_SIZE;

struct Machine {
    tables: PageTableMemory,
    frames: FrameAllocator,
    pml4: u64,
}

fn machine(pages: u64) -> Machine {
    let boot = BootInfo {
        hhdm_offset: HHDM,
        kernel_phys_base: 0x80000,
        kernel_virt_base: KERNEL_VIRT,
        memory_map: vec![MemoryRegion { base: 0x100000, length: pages * PAGE_SIZE, usable: true }],
    };
    let frames = frames_init(&boot, KERNEL_VIRT, KERNEL_VIRT);
    let mut tables = PageTableMemory::new();
    let pml4 = phys_to_virt(0x50000, HHDM);
    tables.insert(pml4, PageTable::new());
    Machine { tables, frames, pml4 }
}

fn heap_on(m: &mut Machine) -> LinkedListHeap {
    match init(&mut m.tables, &mut m.frames, HHDM, m.pml4) {
        Ok(h) => h,
        Err(e) => panic!("heap init failed: {:?}", e),
    }
}

fn take(h: &mut LinkedListHeap, m: &mut Machine, size: u64, align: u64) -> u64 {
    h.allocate(size, align, &mut m.tables, &mut m.frames, HHDM, m.pml4)
}

#[test]
fn init_maps_the_initial_pages() {
    let mut m = machine(2048);
    let _h = heap_on(&mut m);
    // 1024 heap pages, one PDPT, one PD and two page tables.
    assert_eq!(free_frame_count(&m.frames), 2048 - 1028);
}

#[test]
fn init_without_enough_frames_fails() {
    let mut m = machine(100);
    match init(&mut m.tables, &mut m.frames, HHDM, m.pml4) {
        Err(e) => assert_eq!(e, HeapInitError::OutOfFrames),
        Ok(_) => panic!("heap init should fail"),
    }
    assert_eq!(free_frame_count(&m.frames), 0);
}

#[test]
fn first_allocations_come_from_the_start() {
    let mut m = machine(2048);
    let mut h = heap_on(&mut m);
    // Header, back pointer, 16 bytes: a 32-byte block.
    let p1 = take(&mut h, &mut m, 16, 8);
    assert_eq!(p1, HEAP_START + 16);
    let p2 = take(&mut h, &mut m, 16, 8);
    assert_eq!(p2, HEAP_START + 32 + 16);
}

#[test]
fn alignment_is_honoured() {
    let mut m = machine(2048);
    let mut h = heap_on(&mut m);
    let p1 = take(&mut h, &mut m, 8, 8);
    assert_eq!(p1, HEAP_START + 16);
    // The next block starts at HEAP_START + 24; its payload is rounded up to 64.
    let p2 = take(&mut h, &mut m, 100, 64);
    assert_eq!(p2, HEAP_START + 64);
    assert_eq!(p2 % 64, 0);
}

#[test]
fn freed_neighbours_coalesce_back_into_one_block() {
    let mut m = machine(2048);
    let mut h = heap_on(&mut m);
    let p1 = take(&mut h, &mut m, 16, 8);
    let p2 = take(&mut h, &mut m, 16, 8);
    h.dealloc(p2);
    h.dealloc(p1);
    // The whole initial heap is one free block again.
    let big = take(&mut h, &mut m, HEAP_BYTES - 16, 1);
    assert_eq!(big, HEAP_START + 16);
    assert_eq!(free_frame_count(&m.frames), 2048 - 1028);
}

#[test]
fn freed_block_is_reused() {
    let mut m = machine(2048);
    let mut h = heap_on(&mut m);
    let p1 = take(&mut h, &mut m, 16, 8);
    let _p2 = take(&mut h, &mut m, 16, 8);
    h.dealloc(p1);
    // The freed block holds 32 bytes: enough for 8 bytes with byte alignment.
    let p3 = take(&mut h, &mut m, 8, 1);
    assert_eq!(p3, p1);
}

#[test]
fn heap_grows_when_nothing_fits() {
    let mut m = machine(2048);
    let mut h = heap_on(&mut m);
    let all = take(&mut h, &mut m, HEAP_BYTES - 16, 1);
    assert_eq!(all, HEAP_START + 16);
    let before = free_frame_count(&m.frames);
    let p = take(&mut h, &mut m, 100, 8);
    assert_eq!(p, HEAP_START + HEAP_BYTES + 16);
    // One heap page and a new page table.
    assert_eq!(free_frame_count(&m.frames), before - 2);
}

#[test]
fn allocation_fails_when_the_heap_cannot_grow() {
    let mut m = machine(1028);
    let mut h = heap_on(&mut m);
    assert_eq!(free_frame_count(&m.frames), 0);
    let all = take(&mut h, &mut m, HEAP_BYTES - 16, 1);
    assert_eq!(all, HEAP_START + 16);
    assert_eq!(take(&mut h, &mut m, 16, 8), 0);
}

#[test]
fn dealloc_of_null_is_ignored() {
    let mut m = machine(2048);
    let mut h = heap_on(&mut m);
    h.dealloc(0);
    assert_eq!(take(&mut h, &mut m, 16, 8), HEAP_START + 16);
}

#[test]
fn empty_heap_grows_on_first_allocation() {
    let mut m = machine(16);
    let mut h = LinkedListHeap::new(HEAP_START);
    let p = take(&mut h, &mut m, 64, 16);
    // One page, after the PDPT, PD and page table made for it.
    assert_eq!(p, HEAP_START + 16);
    assert_eq!(free_frame_count(&m.frames), 16 - 4);
}

#[test]
fn growth_merges_with_a_free_block_at_the_old_end() {
    let mut m = machine(2048);
    let mut h = heap_on(&mut m);
    // Leaves a 64-byte free block that ends at the heap's end.
    let first = take(&mut h, &mut m, HEAP_BYTES - 80, 1);
    assert_eq!(first, HEAP_START + 16);
    // 128 bytes are needed: the heap grows by a page, which joins the 64-byte block.
    let p = take(&mut h, &mut m, 100, 8);
    assert_eq!(p, HEAP_START + HEAP_BYTES - 64 + 16);
}

#[test]
fn tiny_allocations_take_a_whole_node() {
    let mut m = machine(2048);
    let mut h = heap_on(&mut m);
    let p1 = take(&mut h, &mut m, 1, 1);
    assert_eq!(p1, HEAP_START + 16);
    // 17 bytes round up to 24; the next block starts 8-aligned.
    let p2 = take(&mut h, &mut m, 1, 1);
    assert_eq!(p2, HEAP_START + 24 + 16);
    h.dealloc(p1);
    assert_eq!(take(&mut h, &mut m, 1, 1), p1);
}

#[test]
fn highly_aligned_allocations_are_found_again() {
    let mut m = machine(2048);
    let mut h = heap_on(&mut m);
    let p1 = take(&mut h, &mut m, 8, 8);
    assert_eq!(p1, HEAP_START + 16);
    let p2 = take(&mut h, &mut m, 8, 4096);
    assert_eq!(p2, HEAP_START + 4096);
    h.dealloc(p2);
    assert_eq!(take(&mut h, &mut m, 8, 4096), p2);
}
