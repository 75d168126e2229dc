use monarch::boot_info::{total_memory, BootInfo, MemoryRegion};
use monarch::memory::allocator::{alloc_frame, free_frame, free_frame_count, init, FrameAllocator, PAGE_SIZE};
use monarch::memory::manager;

const KERNEL_VIRT: u64 = 0xFFFF_FFFF_8000_0000;

fn boot_with(map: Vec<MemoryRegion>, kernel_phys: u64) -> BootInfo {
    BootInfo {
        hhdm_offset: 0xFFFF_8000_0000_0000,
        kernel_phys_base: kernel_phys,
        kernel_virt_base: KERNEL_VIRT,
        memory_map: map,
    }
}

fn usable(base: u64, pages: u64) -> MemoryRegion {
    MemoryRegion { base, length: pages * PAGE_SIZE, usable: true }
}

fn reserved(base: u64, pages: u64) -> MemoryRegion {
    MemoryRegion { base, length: pages * PAGE_SIZE, usable: false }
}

#[test]
fn new_empty_allocator_has_nothing_to_give() {
    let mut a = FrameAllocator::new_empty();
    assert_eq!(a.free_frames(), 0);
    assert_eq!(a.alloc_frame(), None);
    assert_eq!(a.free_frames(), 0);
}

#[test]
fn init_frees_usable_regions_and_reserves_kernel_and_low_memory() {
    // 512 usable frames from 0, 4 reserved, 8 usable from frame 0x300; the kernel image covers
    // frame 0x300 and part of frame 0x301.
    let boot = boot_with(vec![usable(0, 512), reserved(0x200000, 4), usable(0x300000, 8)], 0x300000);
    let mut a = init(&boot, KERNEL_VIRT, KERNEL_VIRT + 0x1800);
    // Frames 256..512 and 0x302..0x308.
    assert_eq!(free_frame_count(&a), 256 + 6);
    // The low 1 MiB stays used, so the first frame handed out is at 1 MiB.
    assert_eq!(alloc_frame(&mut a), Some(0x100000));
    assert_eq!(alloc_frame(&mut a), Some(0x101000));
    assert_eq!(free_frame_count(&a), 260);
}

#[test]
fn kernel_frames_are_never_handed_out() {
    let boot = boot_with(vec![usable(0x300000, 8)], 0x300000);
    let mut a = init(&boot, KERNEL_VIRT, KERNEL_VIRT + 0x1800);
    assert_eq!(free_frame_count(&a), 6);
    let mut got = Vec::new();
    while let Some(p) = alloc_frame(&mut a) {
        got.push(p);
    }
    assert_eq!(got, vec![0x302000, 0x303000, 0x304000, 0x305000, 0x306000, 0x307000]);
    assert_eq!(free_frame_count(&a), 0);
}

#[test]
fn low_memory_is_never_handed_out() {
    let boot = boot_with(vec![usable(0x1000, 16), usable(0xF0000, 32)], 0x800000);
    let mut a = init(&boot, KERNEL_VIRT, KERNEL_VIRT);
    // Only the frames of the second region at or above 1 MiB stay free.
    assert_eq!(free_frame_count(&a), 16);
    assert_eq!(alloc_frame(&mut a), Some(0x100000));
}

#[test]
fn overlapping_regions_are_counted_once() {
    let boot = boot_with(vec![usable(0x100000, 8), usable(0x104000, 8)], 0x80000);
    let a = init(&boot, KERNEL_VIRT, KERNEL_VIRT);
    assert_eq!(free_frame_count(&a), 12);
}

#[test]
fn freed_frame_is_handed_out_again() {
    let boot = boot_with(vec![usable(0x100000, 4)], 0x80000);
    let mut a = init(&boot, KERNEL_VIRT, KERNEL_VIRT);
    let p = alloc_frame(&mut a).unwrap();
    assert_eq!(p, 0x100000);
    assert_eq!(free_frame_count(&a), 3);
    free_frame(&mut a, p);
    assert_eq!(free_frame_count(&a), 4);
    assert_eq!(alloc_frame(&mut a), Some(p));
}

#[test]
fn freeing_a_free_frame_keeps_the_counter() {
    let boot = boot_with(vec![usable(0x100000, 4)], 0x80000);
    let mut a = init(&boot, KERNEL_VIRT, KERNEL_VIRT);
    free_frame(&mut a, 0x101000);
    assert_eq!(free_frame_count(&a), 4);
}

#[test]
fn allocation_runs_out() {
    let boot = boot_with(vec![usable(0x100000, 2)], 0x80000);
    let mut a = init(&boot, KERNEL_VIRT, KERNEL_VIRT);
    assert_eq!(alloc_frame(&mut a), Some(0x100000));
    assert_eq!(alloc_frame(&mut a), Some(0x101000));
    assert_eq!(alloc_frame(&mut a), None);
    assert_eq!(free_frame_count(&a), 0);
}

#[test]
fn search_resumes_at_the_last_word_used() {
    // Frames 256..384 usable: bitmap words 4 and 5.
    let boot = boot_with(vec![usable(0x100000, 128)], 0x800000);
    let mut a = init(&boot, KERNEL_VIRT, KERNEL_VIRT);
    for f in 256..320u64 {
        assert_eq!(alloc_frame(&mut a), Some(f * PAGE_SIZE));
    }
    assert_eq!(alloc_frame(&mut a), Some(320 * PAGE_SIZE));
    // A frame freed in word 4 is passed over while word 5 still has free frames.
    free_frame(&mut a, 261 * PAGE_SIZE);
    assert_eq!(alloc_frame(&mut a), Some(321 * PAGE_SIZE));
}

#[test]
fn search_wraps_around_to_earlier_words() {
    let boot = boot_with(vec![usable(0x100000, 128)], 0x800000);
    let mut a = init(&boot, KERNEL_VIRT, KERNEL_VIRT);
    for _ in 0..128u64 {
        assert!(alloc_frame(&mut a).is_some());
    }
    assert_eq!(alloc_frame(&mut a), None);
    free_frame(&mut a, 263 * PAGE_SIZE);
    assert_eq!(alloc_frame(&mut a), Some(263 * PAGE_SIZE));
}

#[test]
fn regions_beyond_the_bitmap_are_not_counted() {
    // 64 GiB is the end of the bitmap; a usable region above it adds no free frame.
    let boot = boot_with(vec![usable(0x10_0000_0000, 2)], 0x80000);
    let mut a = init(&boot, KERNEL_VIRT, KERNEL_VIRT);
    assert_eq!(free_frame_count(&a), 0);
    // They are reported rather than silently dropped.
    assert_eq!(a.untracked_frames(), 2);
    assert_eq!(alloc_frame(&mut a), None);
}

#[test]
fn a_region_across_the_bitmap_end_is_split() {
    // Frames 0xFFFFFE..0x1000002: two inside the bitmap, two beyond it.
    let boot = boot_with(vec![usable(0x0F_FFFF_E000, 4)], 0x80000);
    let a = init(&boot, KERNEL_VIRT, KERNEL_VIRT);
    assert_eq!(free_frame_count(&a), 2);
    assert_eq!(a.untracked_frames(), 2);
}

#[test]
fn manager_reads_the_free_count() {
    let boot = boot_with(vec![usable(0x100000, 10)], 0x80000);
    let a = init(&boot, KERNEL_VIRT, KERNEL_VIRT);
    assert_eq!(manager::init(&a), 10);
}

#[test]
fn total_memory_sums_every_region() {
    let map = vec![usable(0, 16), reserved(0x10000, 4), usable(0x20000, 8)];
    assert_eq!(total_memory(&map), 28 * PAGE_SIZE);
    assert_eq!(total_memory(&[]), 0);
}
