//! What the bootloader reports about the machine, as plain values.

use vstd::prelude::*;

verus! {

/// One entry of the bootloader's physical memory map.
#[derive(Clone, Copy, Debug, PartialEq, Eq, Structural)]
pub struct MemoryRegion {
    pub base: u64,
    pub length: u64,
    /// The region is free RAM that the kernel may hand out.
    pub usable: bool,
}

/// Boot-time facts about the machine.
pub struct BootInfo {
    /// Offset of the higher-half direct map of physical memory.
    pub hhdm_offset: u64,
    /// Physical address at which the kernel image was loaded.
    pub kernel_phys_base: u64,
    /// Virtual address at which the kernel image is mapped.
    pub kernel_virt_base: u64,
    pub memory_map: Vec<MemoryRegion>,
}

/// The sum of the lengths of the regions of `map`.
pub open spec fn total_length(map: Seq<MemoryRegion>) -> int
    decreases map.len(),
{
    if map.len() == 0 {
        0
    } else {
        total_length(map.drop_last()) + map.last().length
    }
}

/// The total length of all regions of the memory map, usable or not.
pub fn total_memory(map: &[MemoryRegion]) -> (t: u64)
    requires
        total_length(map@) <= u64::MAX,
    ensures
        t == total_length(map@),
{
    let mut acc: u64 = 0;
    let mut i: usize = 0;
    while i < map.len()
        invariant
            i <= map@.len(),
            acc == total_length(map@.take(i as int)),
            total_length(map@) <= u64::MAX,
        decreases map@.len() - i,
    {
        proof {
            lemma_total_prefix(map@, i as int);
        }
        acc = acc + map[i].length;
        i = i + 1;
    }
    assert(map@.take(map@.len() as int) =~= map@);
    acc
}

proof fn lemma_total_prefix(map: Seq<MemoryRegion>, i: int)
    requires
        0 <= i < map.len(),
    ensures
        total_length(map.take(i + 1)) == total_length(map.take(i)) + map[i].length,
        total_length(map.take(i + 1)) <= total_length(map),
    decreases map.len() - i,
{
    assert(map.take(i + 1).drop_last() =~= map.take(i));
    if i + 1 < map.len() {
        lemma_total_prefix(map, i + 1);
    } else {
        assert(map.take(i + 1) =~= map);
    }
}

} // verus!
