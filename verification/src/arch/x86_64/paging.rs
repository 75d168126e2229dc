//! Four-level x86-64 page tables: entries, tables, and the walk that maps and unmaps 4 KiB pages.

use vstd::prelude::*;
use vstd::hash_map::HashMapWithView;
use crate::memory::allocator::{FrameAllocator, FrameAllocatorModel};
use crate::boot_info::BootInfo;

verus! {

/// One 64-bit page-table entry.
#[derive(Clone, Copy)]
pub struct PageTableEntry(pub u64);

impl PageTableEntry {
    /// Bit 0.
    pub const PRESENT: u64 = 0x1;
    /// Bit 1.
    pub const WRITABLE: u64 = 0x2;
    /// Bit 2.
    pub const USER: u64 = 0x4;
    /// Bit 3.
    pub const WRITE_THROUGH: u64 = 0x8;
    /// Bit 4.
    pub const NO_CACHE: u64 = 0x10;
    /// Bit 5.
    pub const ACCESSED: u64 = 0x20;
    /// Bit 6.
    pub const DIRTY: u64 = 0x40;
    /// Bit 7.
    pub const HUGE_PAGE: u64 = 0x80;
    /// Bit 8.
    pub const GLOBAL: u64 = 0x100;
    /// Bit 63.
    pub const NO_EXECUTE: u64 = 0x8000_0000_0000_0000;
    pub const PHYS_ADDR_MASK: u64 = 0x000F_FFFF_FFFF_F000u64;

    /// The all-zero entry.
    pub fn missing() -> (e: Self)
        ensures
            e.0 == 0,
    {
        PageTableEntry(0)
    }

    pub fn is_present(self) -> (b: bool)
        ensures
            b == entry_present(self.0),
    {
        self.0 & Self::PRESENT != 0
    }

    pub fn is_huge(self) -> (b: bool)
        ensures
            b == (self.0 & Self::HUGE_PAGE != 0),
    {
        self.0 & Self::HUGE_PAGE != 0
    }

    /// The physical address bits of the entry.
    pub fn phys_addr(self) -> (a: u64)
        ensures
            a == entry_addr(self.0),
    {
        self.0 & Self::PHYS_ADDR_MASK
    }

    /// An entry pointing at `phys` with the bits of `flags`.
    pub fn new(phys: u64, flags: u64) -> (e: Self)
        ensures
            e.0 == phys | flags,
    {
        PageTableEntry(phys | flags)
    }
}

/// Whether a raw entry value has its present bit set.
pub open spec fn entry_present(v: u64) -> bool {
    v & PageTableEntry::PRESENT != 0
}

/// The physical address held in a raw entry value.
pub open spec fn entry_addr(v: u64) -> u64 {
    v & PageTableEntry::PHYS_ADDR_MASK
}

/// A page-aligned physical address that fits the address bits of an entry.
pub open spec fn is_frame_address(phys: u64) -> bool {
    phys & !PageTableEntry::PHYS_ADDR_MASK == 0
}

/// Flags that leave the address bits of an entry alone.
pub open spec fn is_flag_set(flags: u64) -> bool {
    flags & PageTableEntry::PHYS_ADDR_MASK == 0
}

/// An entry built from a frame address and flags gives back that address, and is present
/// exactly when the flags hold the present bit.
pub proof fn lemma_entry_round_trip(phys: u64, flags: u64)
    requires
        is_frame_address(phys),
        is_flag_set(flags),
    ensures
        entry_addr(phys | flags) == phys,
        entry_present(phys | flags) == (flags & PageTableEntry::PRESENT != 0),
        ((phys | flags) & PageTableEntry::HUGE_PAGE != 0) == (flags & PageTableEntry::HUGE_PAGE != 0),
{
    assert(((phys | flags) & 0x000F_FFFF_FFFF_F000u64) == phys) by (bit_vector)
        requires
            phys & !0x000F_FFFF_FFFF_F000u64 == 0,
            flags & 0x000F_FFFF_FFFF_F000u64 == 0,
    ;
    assert((((phys | flags) & 1u64) != 0) == ((flags & 1u64) != 0)) by (bit_vector)
        requires
            phys & !0x000F_FFFF_FFFF_F000u64 == 0,
    ;
    assert((((phys | flags) & 128u64) != 0) == ((flags & 128u64) != 0)) by (bit_vector)
        requires
            phys & !0x000F_FFFF_FFFF_F000u64 == 0,
    ;
}

/// The missing entry is neither present nor huge and points nowhere.
pub proof fn lemma_missing_entry()
    ensures
        !entry_present(0),
        entry_addr(0) == 0,
        0u64 & PageTableEntry::HUGE_PAGE == 0,
{
    assert(0u64 & 1u64 == 0u64) by (bit_vector);
    assert(0u64 & 0x000F_FFFF_FFFF_F000u64 == 0u64) by (bit_vector);
    assert(0u64 & 128u64 == 0u64) by (bit_vector);
}

/// A page table: 512 entries.
pub struct PageTable {
    pub entries: [PageTableEntry; 512],
}

/// The raw values of the entries of a table.
pub open spec fn table_values(t: PageTable) -> Seq<u64> {
    t.entries@.map_values(|e: PageTableEntry| e.0)
}

/// The raw values of an empty table.
pub open spec fn empty_table_values() -> Seq<u64> {
    Seq::new(512, |i: int| 0u64)
}

impl PageTable {
    /// A table with every entry missing.
    pub fn new() -> (t: Self)
        ensures
            table_values(t) == empty_table_values(),
    {
        let t = PageTable { entries: [PageTableEntry::missing(); 512] };
        assert(table_values(t) =~= empty_table_values());
        t
    }
}

/// Translates a physical address into the virtual address at which the higher-half direct map
/// shows it.
pub fn phys_to_virt(phys: u64, hhdm_offset: u64) -> (v: u64)
    requires
        phys + hhdm_offset <= u64::MAX,
    ensures
        v == phys + hhdm_offset,
{
    phys + hhdm_offset
}

/// The direct-map offset leaves room for every address an entry can hold.
pub open spec fn hhdm_fits(hhdm_offset: u64) -> bool {
    hhdm_offset <= u64::MAX - PageTableEntry::PHYS_ADDR_MASK
}

/// The virtual address of the table that an entry value points at.
pub open spec fn child_table(entry: u64, hhdm_offset: u64) -> u64 {
    (entry_addr(entry) + hhdm_offset) as u64
}

/// The nine-bit index that `virt` selects at the level whose entries cover `1 << shift` bytes.
pub open spec fn table_index(virt: u64, shift: u64) -> int {
    ((virt >> shift) & 0x1FFu64) as int
}

pub open spec fn pml4_index(virt: u64) -> int {
    table_index(virt, 39)
}

pub open spec fn pdpt_index(virt: u64) -> int {
    table_index(virt, 30)
}

pub open spec fn pd_index(virt: u64) -> int {
    table_index(virt, 21)
}

pub open spec fn pt_index(virt: u64) -> int {
    table_index(virt, 12)
}

fn index_of(virt: u64, shift: u64) -> (i: usize)
    requires
        shift < 64,
    ensures
        i == table_index(virt, shift),
        i < 512,
{
    let x = (virt >> shift) & 0x1FF;
    assert(x < 512) by (bit_vector)
        requires
            x == (virt >> shift) & 0x1FFu64,
    ;
    x as usize
}

/// The page tables in memory, keyed by the virtual address through which the kernel reaches them.
pub struct PageTableMemory {
    tables: HashMapWithView<u64, PageTable>,
}

impl View for PageTableMemory {
    type V = Map<u64, Seq<u64>>;

    closed spec fn view(&self) -> Map<u64, Seq<u64>> {
        self.tables@.map_values(|t: PageTable| table_values(t))
    }
}

/// Every table in `mem` has 512 entries.
pub open spec fn tables_sized(mem: Map<u64, Seq<u64>>) -> bool {
    forall|t: u64| #[trigger] mem.contains_key(t) ==> mem[t].len() == 512
}

/// The raw value of entry `idx` of the table at `table`.
pub open spec fn entry_at(mem: Map<u64, Seq<u64>>, table: u64, idx: int) -> u64 {
    mem[table][idx]
}

/// `mem` with entry `idx` of the table at `table` replaced by `v`.
pub open spec fn with_entry(mem: Map<u64, Seq<u64>>, table: u64, idx: int, v: u64) -> Map<u64, Seq<u64>> {
    mem.insert(table, mem[table].update(idx, v))
}

impl PageTableMemory {
    /// No tables at all.
    pub fn new() -> (m: Self)
        ensures
            m@ == Map::<u64, Seq<u64>>::empty(),
            tables_sized(m@),
    {
        broadcast use vstd::std_specs::hash::group_hash_axioms;
        let m = PageTableMemory { tables: HashMapWithView::new() };
        assert(m@ =~= Map::<u64, Seq<u64>>::empty());
        m
    }

    pub(crate) proof fn lemma_sized(&self)
        ensures
            tables_sized(self@),
    {
        assert forall|t: u64| #[trigger] self@.contains_key(t) implies self@[t].len() == 512 by {
            assert(self@[t] == table_values(self.tables@[t]));
        }
    }

    /// Places `table` at virtual address `addr`, replacing any table there.
    pub fn insert(&mut self, addr: u64, table: PageTable)
        ensures
            final(self)@ == old(self)@.insert(addr, table_values(table)),
            tables_sized(final(self)@),
    {
        self.tables.insert(addr, table);
        assert(self@ =~= old(self)@.insert(addr, table_values(table)));
        proof {
            self.lemma_sized();
        }
    }

    /// The table at virtual address `addr`, if there is one.
    pub fn get(&self, addr: u64) -> (r: Option<&PageTable>)
        ensures
            match r {
                Some(t) => self@.contains_key(addr) && table_values(*t) == self@[addr],
                None => !self@.contains_key(addr),
            },
    {
        self.tables.get(&addr)
    }

    /// Entry `idx` of the table at `addr`.
    pub fn read_entry(&self, addr: u64, idx: usize) -> (e: PageTableEntry)
        requires
            self@.contains_key(addr),
            idx < 512,
        ensures
            e.0 == entry_at(self@, addr, idx as int),
    {
        let t = self.tables.get(&addr).unwrap();
        t.entries[idx]
    }

    /// Overwrites entry `idx` of the table at `addr` with `e`.
    pub fn write_entry(&mut self, addr: u64, idx: usize, e: PageTableEntry)
        requires
            old(self)@.contains_key(addr),
            idx < 512,
        ensures
            final(self)@ == with_entry(old(self)@, addr, idx as int, e.0),
            tables_sized(final(self)@),
    {
        let mut t = self.tables.remove(&addr).unwrap();
        t.entries[idx] = e;
        self.tables.insert(addr, t);
        assert(table_values(t) =~= old(self)@[addr].update(idx as int, e.0));
        assert(self@ =~= with_entry(old(self)@, addr, idx as int, e.0));
        proof {
            self.lemma_sized();
        }
    }
}

/// The page tables together with the frame allocator that supplies new tables.
pub ghost struct PagingState {
    pub mem: Map<u64, Seq<u64>>,
    pub frames: FrameAllocatorModel,
}

/// Flags of the entries that link a new table into its parent.
pub open spec fn table_link_flags() -> u64 {
    PageTableEntry::PRESENT | PageTableEntry::WRITABLE
}

/// One step of the walk for `map_page`: follow entry `idx` of `table`, or, when it is missing,
/// allocate a frame, put an empty table there, and link it in. `None` when no frame is left.
pub open spec fn descend(s: PagingState, hhdm_offset: u64, table: u64, idx: int) -> Option<(PagingState, u64)> {
    let e = entry_at(s.mem, table, idx);
    if entry_present(e) {
        Some((s, child_table(e, hhdm_offset)))
    } else {
        match s.frames.alloc_result() {
            None => None,
            Some(f) => {
                let t = (f + hhdm_offset) as u64;
                let mem1 = s.mem.insert(t, empty_table_values());
                let mem2 = with_entry(mem1, table, idx, f | table_link_flags());
                Some((PagingState { mem: mem2, frames: s.frames.after_alloc() }, t))
            },
        }
    }
}

/// Why a page could not be mapped or unmapped.
#[derive(Debug, PartialEq, Eq, Structural)]
pub enum MapError {
    AlreadyMapped,
    NotMapped,
    OutOfFrames,
}

/// The state and result of mapping `virt` to `phys` with `flags` through the tables rooted at `pml4`.
pub open spec fn map_outcome(
    s: PagingState,
    hhdm_offset: u64,
    pml4: u64,
    virt: u64,
    phys: u64,
    flags: u64,
) -> (PagingState, Result<(), MapError>) {
    match descend(s, hhdm_offset, pml4, pml4_index(virt)) {
        None => (s, Err(MapError::OutOfFrames)),
        Some((s3, pdpt)) => match descend(s3, hhdm_offset, pdpt, pdpt_index(virt)) {
            None => (s3, Err(MapError::OutOfFrames)),
            Some((s2, pd)) => match descend(s2, hhdm_offset, pd, pd_index(virt)) {
                None => (s2, Err(MapError::OutOfFrames)),
                Some((s1, pt)) => if entry_present(entry_at(s1.mem, pt, pt_index(virt))) {
                    (s1, Err(MapError::AlreadyMapped))
                } else {
                    (
                        PagingState {
                            mem: with_entry(s1.mem, pt, pt_index(virt), phys | flags),
                            frames: s1.frames,
                        },
                        Ok(()),
                    )
                },
            },
        },
    }
}

/// Every table that `map_page` reads exists.
pub open spec fn map_reads_valid(s: PagingState, hhdm_offset: u64, pml4: u64, virt: u64) -> bool {
    &&& s.mem.contains_key(pml4)
    &&& match descend(s, hhdm_offset, pml4, pml4_index(virt)) {
        None => true,
        Some((s3, pdpt)) => {
            &&& s3.mem.contains_key(pdpt)
            &&& match descend(s3, hhdm_offset, pdpt, pdpt_index(virt)) {
                None => true,
                Some((s2, pd)) => {
                    &&& s2.mem.contains_key(pd)
                    &&& match descend(s2, hhdm_offset, pd, pd_index(virt)) {
                        None => true,
                        Some((s1, pt)) => s1.mem.contains_key(pt),
                    }
                },
            }
        },
    }
}

fn descend_exec(
    mem: &mut PageTableMemory,
    frames: &mut FrameAllocator,
    hhdm_offset: u64,
    table: u64,
    idx: usize,
) -> (r: Option<u64>)
    requires
        old(mem)@.contains_key(table),
        tables_sized(old(mem)@),
        idx < 512,
        old(frames)@.wf(),
        hhdm_fits(hhdm_offset),
    ensures
        final(frames)@.wf(),
        tables_sized(final(mem)@),
        ({
            let s = PagingState { mem: old(mem)@, frames: old(frames)@ };
            match descend(s, hhdm_offset, table, idx as int) {
                None => r is None && final(mem)@ == old(mem)@ && final(frames)@ == old(frames)@.after_alloc(),
                Some((s2, t)) => r == Some(t) && final(mem)@ == s2.mem && final(frames)@ == s2.frames,
            }
        }),
{
    let e = mem.read_entry(table, idx);
    if e.is_present() {
        Some(phys_to_virt(addr_of(e), hhdm_offset))
    } else {
        match frames.alloc_frame() {
            None => None,
            Some(new_frame) => {
                proof {
                    crate::memory::allocator::lemma_alloc_takes_free_frame(old(frames)@);
                }
                let new_table = phys_to_virt(new_frame, hhdm_offset);
                mem.insert(new_table, PageTable::new());
                let link = PageTableEntry::new(new_frame, PageTableEntry::PRESENT | PageTableEntry::WRITABLE);
                mem.write_entry(table, idx, link);
                Some(new_table)
            },
        }
    }
}

/// Maps the 4 KiB page at `virt` to `phys` with `flags` in the tables rooted at `pml4`,
/// creating missing intermediate tables in frames taken from `frames`.
pub fn map_page(
    mem: &mut PageTableMemory,
    frames: &mut FrameAllocator,
    hhdm_offset: u64,
    pml4: u64,
    virt: u64,
    phys: u64,
    flags: u64,
) -> (r: Result<(), MapError>)
    requires
        old(frames)@.wf(),
        hhdm_fits(hhdm_offset),
        map_reads_valid(PagingState { mem: old(mem)@, frames: old(frames)@ }, hhdm_offset, pml4, virt),
    ensures
        final(frames)@.wf(),
        tables_sized(final(mem)@),
        ({
            let (s, res) = map_outcome(
                PagingState { mem: old(mem)@, frames: old(frames)@ },
                hhdm_offset,
                pml4,
                virt,
                phys,
                flags,
            );
            &&& r == res
            &&& final(mem)@ == s.mem
            &&& final(frames)@ == s.frames
        }),
{
    proof {
        mem.lemma_sized();
    }
    let pml4_idx = index_of(virt, 39);
    let pdpt_idx = index_of(virt, 30);
    let pd_idx = index_of(virt, 21);
    let pt_idx = index_of(virt, 12);

    let pdpt = match descend_exec(mem, frames, hhdm_offset, pml4, pml4_idx) {
        Some(t) => t,
        None => return Err(MapError::OutOfFrames),
    };
    let pd = match descend_exec(mem, frames, hhdm_offset, pdpt, pdpt_idx) {
        Some(t) => t,
        None => return Err(MapError::OutOfFrames),
    };
    let pt = match descend_exec(mem, frames, hhdm_offset, pd, pd_idx) {
        Some(t) => t,
        None => return Err(MapError::OutOfFrames),
    };

    let pt_entry = mem.read_entry(pt, pt_idx);
    if pt_entry.is_present() {
        return Err(MapError::AlreadyMapped);
    }
    mem.write_entry(pt, pt_idx, PageTableEntry::new(phys, flags));
    Ok(())
}

} // verus!

verus! {

/// Every table that the walk for `virt` reads exists: the root, and the target of each present
/// entry on the way down.
pub open spec fn walk_valid(mem: Map<u64, Seq<u64>>, hhdm_offset: u64, pml4: u64, virt: u64) -> bool {
    let e4 = entry_at(mem, pml4, pml4_index(virt));
    let pdpt = child_table(e4, hhdm_offset);
    let e3 = entry_at(mem, pdpt, pdpt_index(virt));
    let pd = child_table(e3, hhdm_offset);
    let e2 = entry_at(mem, pd, pd_index(virt));
    let pt = child_table(e2, hhdm_offset);
    &&& mem.contains_key(pml4)
    &&& entry_present(e4) ==> {
        &&& mem.contains_key(pdpt)
        &&& entry_present(e3) ==> {
            &&& mem.contains_key(pd)
            &&& entry_present(e2) ==> mem.contains_key(pt)
        }
    }
}

/// The last-level table for `virt`, when the three entries above it are present.
pub open spec fn leaf_table(mem: Map<u64, Seq<u64>>, hhdm_offset: u64, pml4: u64, virt: u64) -> Option<u64> {
    let e4 = entry_at(mem, pml4, pml4_index(virt));
    let pdpt = child_table(e4, hhdm_offset);
    let e3 = entry_at(mem, pdpt, pdpt_index(virt));
    let pd = child_table(e3, hhdm_offset);
    let e2 = entry_at(mem, pd, pd_index(virt));
    if entry_present(e4) && entry_present(e3) && entry_present(e2) {
        Some(child_table(e2, hhdm_offset))
    } else {
        None
    }
}

/// The present last-level entry that maps `virt`, if any.
pub open spec fn translate(mem: Map<u64, Seq<u64>>, hhdm_offset: u64, pml4: u64, virt: u64) -> Option<u64> {
    match leaf_table(mem, hhdm_offset, pml4, virt) {
        Some(pt) => if entry_present(entry_at(mem, pt, pt_index(virt))) {
            Some(entry_at(mem, pt, pt_index(virt)))
        } else {
            None
        },
        None => None,
    }
}

/// Removes the mapping of the 4 KiB page at `virt` from the tables rooted at `pml4` and returns
/// the physical address it mapped to.
pub fn unmap_page(mem: &mut PageTableMemory, hhdm_offset: u64, pml4: u64, virt: u64) -> (r: Result<u64, MapError>)
    requires
        hhdm_fits(hhdm_offset),
        walk_valid(old(mem)@, hhdm_offset, pml4, virt),
    ensures
        tables_sized(final(mem)@),
        match translate(old(mem)@, hhdm_offset, pml4, virt) {
            Some(e) => {
                &&& r == Ok::<u64, MapError>(entry_addr(e))
                &&& final(mem)@ == with_entry(
                    old(mem)@,
                    leaf_table(old(mem)@, hhdm_offset, pml4, virt).unwrap(),
                    pt_index(virt),
                    0,
                )
            },
            None => r == Err::<u64, MapError>(MapError::NotMapped) && final(mem)@ == old(mem)@,
        },
{
    proof {
        mem.lemma_sized();
    }
    let pml4_idx = index_of(virt, 39);
    let pdpt_idx = index_of(virt, 30);
    let pd_idx = index_of(virt, 21);
    let pt_idx = index_of(virt, 12);

    let pml4_entry = mem.read_entry(pml4, pml4_idx);
    if !pml4_entry.is_present() {
        return Err(MapError::NotMapped);
    }
    let pdpt = phys_to_virt(addr_of(pml4_entry), hhdm_offset);

    let pdpt_entry = mem.read_entry(pdpt, pdpt_idx);
    if !pdpt_entry.is_present() {
        return Err(MapError::NotMapped);
    }
    let pd = phys_to_virt(addr_of(pdpt_entry), hhdm_offset);

    let pd_entry = mem.read_entry(pd, pd_idx);
    if !pd_entry.is_present() {
        return Err(MapError::NotMapped);
    }
    let pt = phys_to_virt(addr_of(pd_entry), hhdm_offset);

    let pt_entry = mem.read_entry(pt, pt_idx);
    if !pt_entry.is_present() {
        return Err(MapError::NotMapped);
    }

    let phys = pt_entry.phys_addr();
    mem.write_entry(pt, pt_idx, PageTableEntry::missing());
    Ok(phys)
}

/// The address bits of an entry, which never exceed the address mask.
fn addr_of(e: PageTableEntry) -> (a: u64)
    ensures
        a == entry_addr(e.0),
        a <= PageTableEntry::PHYS_ADDR_MASK,
{
    let a = e.phys_addr();
    let v = e.0;
    assert(a <= 0x000F_FFFF_FFFF_F000u64) by (bit_vector)
        requires
            a == v & 0x000F_FFFF_FFFF_F000u64,
    ;
    a
}

} // verus!

verus! {

/// No table lives in a frame that the allocator still counts as free.
pub open spec fn tables_not_free(s: PagingState, hhdm_offset: u64) -> bool {
    forall|f: int| #[trigger] s.frames.free_set().contains(f)
        ==> !s.mem.contains_key((crate::memory::allocator::frame_address(f) + hhdm_offset) as u64)
}

pub(crate) proof fn lemma_frame_entry(f: u64)
    requires
        f % 4096 == 0,
        f < 0x10_0000_0000u64,
    ensures
        is_frame_address(f),
        entry_addr(f | table_link_flags()) == f,
        entry_present(f | table_link_flags()),
{
    assert(f & !0x000F_FFFF_FFFF_F000u64 == 0) by (bit_vector)
        requires
            f % 4096 == 0,
            f < 0x10_0000_0000u64,
    ;
    assert(0x3u64 & 0x000F_FFFF_FFFF_F000u64 == 0) by (bit_vector);
    assert(0x1u64 | 0x2u64 == 0x3u64) by (bit_vector);
    lemma_entry_round_trip(f, 0x3u64);
    assert(0x3u64 & 0x1u64 != 0) by (bit_vector);
}

/// One step of the walk keeps every present entry of every existing table, keeps every table,
/// leaves a present link to the table it returns, and keeps tables out of free frames.
proof fn lemma_descend(s: PagingState, hhdm_offset: u64, table: u64, idx: int)
    requires
        s.frames.wf(),
        hhdm_fits(hhdm_offset),
        tables_sized(s.mem),
        s.mem.contains_key(table),
        0 <= idx < 512,
        tables_not_free(s, hhdm_offset),
    ensures
        match descend(s, hhdm_offset, table, idx) {
            None => {
                &&& !entry_present(entry_at(s.mem, table, idx))
                &&& s.frames.free_set() == Set::<int>::empty()
                &&& s.frames.after_alloc() == s.frames
            },
            Some((s2, t)) => {
                &&& s2.frames.wf()
                &&& tables_sized(s2.mem)
                &&& tables_not_free(s2, hhdm_offset)
                &&& entry_present(entry_at(s2.mem, table, idx))
                &&& child_table(entry_at(s2.mem, table, idx), hhdm_offset) == t
                &&& forall|k: u64| s.mem.contains_key(k) ==> #[trigger] s2.mem.contains_key(k)
                &&& forall|k: u64, i: int|
                    s.mem.contains_key(k) && 0 <= i < 512 && entry_present(entry_at(s.mem, k, i))
                        ==> #[trigger] entry_at(s2.mem, k, i) == entry_at(s.mem, k, i)
                &&& entry_present(entry_at(s.mem, table, idx)) ==> s2 == s
                &&& !entry_present(entry_at(s.mem, table, idx)) ==> {
                    &&& !s.mem.contains_key(t)
                    &&& s2.mem[t] == empty_table_values()
                    &&& s2.mem.contains_key(t)
                }
            },
        },
{
    let e = entry_at(s.mem, table, idx);
    if !entry_present(e) {
        crate::memory::allocator::lemma_alloc_takes_free_frame(s.frames);
        match s.frames.alloc_result() {
            None => {},
            Some(f) => {
                let fi = crate::memory::allocator::frame_index(f);
                assert(crate::memory::allocator::frame_address(fi) == f);
                lemma_frame_entry(f);
                let t = (f + hhdm_offset) as u64;
                assert(!s.mem.contains_key(t));
                let mem1 = s.mem.insert(t, empty_table_values());
                let mem2 = with_entry(mem1, table, idx, f | table_link_flags());
                let s2 = PagingState { mem: mem2, frames: s.frames.after_alloc() };
                assert(mem2[t] == empty_table_values());
                assert forall|g: int| #[trigger] s2.frames.free_set().contains(g)
                    implies !s2.mem.contains_key((crate::memory::allocator::frame_address(g) + hhdm_offset) as u64) by {
                    assert(s.frames.free_set().contains(g));
                    assert(g != fi);
                }
                assert forall|k: u64| #[trigger] s2.mem.contains_key(k) implies s2.mem[k].len() == 512 by {
                    if k != t && k != table {
                        assert(s.mem.contains_key(k));
                    }
                }
            },
        }
    }
}

/// Mapping a page, on tables that live outside free frames and whose walk for `virt` is valid:
/// the walk that `map_page` performs reads only existing tables; the page is refused as already
/// mapped exactly when `virt` already translates; a mapped page then translates to the new entry;
/// running out of frames happens only when no frame is free; and the tables stay outside free
/// frames with a valid walk for `virt`.
pub proof fn lemma_map_then_translate(
    s: PagingState,
    hhdm_offset: u64,
    pml4: u64,
    virt: u64,
    phys: u64,
    flags: u64,
)
    requires
        s.frames.wf(),
        hhdm_fits(hhdm_offset),
        tables_sized(s.mem),
        walk_valid(s.mem, hhdm_offset, pml4, virt),
        tables_not_free(s, hhdm_offset),
    ensures
        map_reads_valid(s, hhdm_offset, pml4, virt),
        ({
            let (s2, r) = map_outcome(s, hhdm_offset, pml4, virt, phys, flags);
            &&& (r == Err::<(), MapError>(MapError::AlreadyMapped)) == (translate(s.mem, hhdm_offset, pml4, virt) is Some)
            &&& r == Err::<(), MapError>(MapError::AlreadyMapped) ==> s2 == s
            &&& r is Ok ==> leaf_entry_distinct(s2.mem, hhdm_offset, pml4, virt)
            &&& r is Ok ==> translate(s2.mem, hhdm_offset, pml4, virt) == if entry_present(phys | flags) {
                Some(phys | flags)
            } else {
                None::<u64>
            }
            &&& r == Err::<(), MapError>(MapError::OutOfFrames) ==> s2.frames.free_set() == Set::<int>::empty()
            &&& r != Err::<(), MapError>(MapError::NotMapped)
            &&& s2.frames.wf()
            &&& tables_sized(s2.mem)
            &&& tables_not_free(s2, hhdm_offset)
            &&& walk_valid(s2.mem, hhdm_offset, pml4, virt)
        }),
{
    let i4 = pml4_index(virt);
    let i3 = pdpt_index(virt);
    let i2 = pd_index(virt);
    let i1 = pt_index(virt);
    lemma_index_bound(virt, 39);
    lemma_index_bound(virt, 30);
    lemma_index_bound(virt, 21);
    lemma_index_bound(virt, 12);
    lemma_descend(s, hhdm_offset, pml4, i4);
    match descend(s, hhdm_offset, pml4, i4) {
        None => {},
        Some((s3, pdpt)) => {
            lemma_descend(s3, hhdm_offset, pdpt, i3);
            match descend(s3, hhdm_offset, pdpt, i3) {
                None => {},
                Some((s2, pd)) => {
                    lemma_missing_entry();
                    if entry_present(entry_at(s.mem, pml4, i4)) {
                        if entry_present(entry_at(s3.mem, pdpt, i3)) {
                            assert(s2.mem.contains_key(pd));
                        }
                    } else {
                        assert(entry_at(s3.mem, pdpt, i3) == 0);
                    }
                    lemma_descend(s2, hhdm_offset, pd, i2);
                    match descend(s2, hhdm_offset, pd, i2) {
                        None => {},
                        Some((s1, pt)) => {
                            assert(entry_at(s1.mem, pml4, i4) == entry_at(s3.mem, pml4, i4));
                            assert(entry_at(s1.mem, pdpt, i3) == entry_at(s2.mem, pdpt, i3));
                            if !entry_present(entry_at(s1.mem, pt, i1)) {
                                let m = with_entry(s1.mem, pt, i1, phys | flags);
                                assert((pt, i1) != (pml4, i4));
                                assert((pt, i1) != (pdpt, i3));
                                assert((pt, i1) != (pd, i2));
                                if (pt, i1) != (pml4, i4) && (pt, i1) != (pdpt, i3) && (pt, i1) != (pd, i2) {
                                    assert(entry_at(m, pml4, i4) == entry_at(s1.mem, pml4, i4));
                                    assert(entry_at(m, pdpt, i3) == entry_at(s1.mem, pdpt, i3));
                                    assert(entry_at(m, pd, i2) == entry_at(s1.mem, pd, i2));
                                }
                            }
                        },
                    }
                },
            }
        },
    }
}

/// Every table of `a` is in `b`, with the same value in each entry that is present in `a`.
pub open spec fn keeps_present(a: Map<u64, Seq<u64>>, b: Map<u64, Seq<u64>>) -> bool {
    &&& forall|k: u64| a.contains_key(k) ==> #[trigger] b.contains_key(k)
    &&& forall|k: u64, i: int|
        a.contains_key(k) && 0 <= i < 512 && entry_present(entry_at(a, k, i)) ==> #[trigger] entry_at(b, k, i)
            == entry_at(a, k, i)
}

proof fn lemma_keeps_present_trans(a: Map<u64, Seq<u64>>, b: Map<u64, Seq<u64>>, c: Map<u64, Seq<u64>>)
    requires
        keeps_present(a, b),
        keeps_present(b, c),
    ensures
        keeps_present(a, c),
{
    assert forall|k: u64, i: int|
        a.contains_key(k) && 0 <= i < 512 && entry_present(entry_at(a, k, i)) implies #[trigger] entry_at(c, k, i)
            == entry_at(a, k, i) by {
        assert(b.contains_key(k));
        assert(entry_at(b, k, i) == entry_at(a, k, i));
    }
}

/// A page whose walk reads only present entries of existing tables translates the same in any
/// tables that keep those entries.
proof fn lemma_translate_kept(a: Map<u64, Seq<u64>>, b: Map<u64, Seq<u64>>, hhdm_offset: u64, pml4: u64, virt: u64)
    requires
        keeps_present(a, b),
        walk_valid(a, hhdm_offset, pml4, virt),
        translate(a, hhdm_offset, pml4, virt) is Some,
    ensures
        translate(b, hhdm_offset, pml4, virt) == translate(a, hhdm_offset, pml4, virt),
        walk_valid(b, hhdm_offset, pml4, virt),
{
    lemma_index_bound(virt, 39);
    lemma_index_bound(virt, 30);
    lemma_index_bound(virt, 21);
    lemma_index_bound(virt, 12);
    let e4 = entry_at(a, pml4, pml4_index(virt));
    let pdpt = child_table(e4, hhdm_offset);
    let e3 = entry_at(a, pdpt, pdpt_index(virt));
    let pd = child_table(e3, hhdm_offset);
    let e2 = entry_at(a, pd, pd_index(virt));
    let pt = child_table(e2, hhdm_offset);
    assert(entry_at(b, pml4, pml4_index(virt)) == e4);
    assert(entry_at(b, pdpt, pdpt_index(virt)) == e3);
    assert(entry_at(b, pd, pd_index(virt)) == e2);
    assert(entry_at(b, pt, pt_index(virt)) == entry_at(a, pt, pt_index(virt)));
}

/// Mapping `virt`, whatever the outcome, leaves every page that already translated translating
/// as before, on tables that live outside free frames.
pub proof fn lemma_map_keeps_other_translations(
    s: PagingState,
    hhdm_offset: u64,
    pml4: u64,
    virt: u64,
    phys: u64,
    flags: u64,
    other: u64,
)
    requires
        s.frames.wf(),
        hhdm_fits(hhdm_offset),
        tables_sized(s.mem),
        walk_valid(s.mem, hhdm_offset, pml4, virt),
        tables_not_free(s, hhdm_offset),
        walk_valid(s.mem, hhdm_offset, pml4, other),
        translate(s.mem, hhdm_offset, pml4, other) is Some,
    ensures
        translate(map_outcome(s, hhdm_offset, pml4, virt, phys, flags).0.mem, hhdm_offset, pml4, other)
            == translate(s.mem, hhdm_offset, pml4, other),
        walk_valid(map_outcome(s, hhdm_offset, pml4, virt, phys, flags).0.mem, hhdm_offset, pml4, other),
{
    let i4 = pml4_index(virt);
    let i3 = pdpt_index(virt);
    let i2 = pd_index(virt);
    let i1 = pt_index(virt);
    lemma_index_bound(virt, 39);
    lemma_index_bound(virt, 30);
    lemma_index_bound(virt, 21);
    lemma_index_bound(virt, 12);
    lemma_map_then_translate(s, hhdm_offset, pml4, virt, phys, flags);
    lemma_descend(s, hhdm_offset, pml4, i4);
    match descend(s, hhdm_offset, pml4, i4) {
        None => {
            lemma_translate_kept(s.mem, s.mem, hhdm_offset, pml4, other);
        },
        Some((s3, pdpt)) => {
            assert(keeps_present(s.mem, s3.mem));
            lemma_descend(s3, hhdm_offset, pdpt, i3);
            match descend(s3, hhdm_offset, pdpt, i3) {
                None => {
                    lemma_translate_kept(s.mem, s3.mem, hhdm_offset, pml4, other);
                },
                Some((s2, pd)) => {
                    assert(keeps_present(s3.mem, s2.mem));
                    lemma_keeps_present_trans(s.mem, s3.mem, s2.mem);
                    lemma_descend(s2, hhdm_offset, pd, i2);
                    match descend(s2, hhdm_offset, pd, i2) {
                        None => {
                            lemma_translate_kept(s.mem, s2.mem, hhdm_offset, pml4, other);
                        },
                        Some((s1, pt)) => {
                            assert(keeps_present(s2.mem, s1.mem));
                            lemma_keeps_present_trans(s.mem, s2.mem, s1.mem);
                            if entry_present(entry_at(s1.mem, pt, i1)) {
                                lemma_translate_kept(s.mem, s1.mem, hhdm_offset, pml4, other);
                            } else {
                                let m = with_entry(s1.mem, pt, i1, phys | flags);
                                assert(keeps_present(s1.mem, m));
                                lemma_keeps_present_trans(s.mem, s1.mem, m);
                                lemma_translate_kept(s.mem, m, hhdm_offset, pml4, other);
                            }
                        },
                    }
                },
            }
        },
    }
}

/// When every table that mapping `virt` reads exists, so does every table of the walk for `virt`.
pub(crate) proof fn lemma_reads_valid_walk(s: PagingState, hhdm_offset: u64, pml4: u64, virt: u64)
    requires
        map_reads_valid(s, hhdm_offset, pml4, virt),
    ensures
        walk_valid(s.mem, hhdm_offset, pml4, virt),
{
}

/// One step of the walk takes at most the one frame it allocates from the free set.
proof fn lemma_descend_frames(s: PagingState, hhdm_offset: u64, table: u64, idx: int)
    requires
        s.frames.wf(),
    ensures
        match descend(s, hhdm_offset, table, idx) {
            None => true,
            Some((s2, t)) => s2.frames.wf() && s2.frames.free_set().subset_of(s.frames.free_set()),
        },
{
    crate::memory::allocator::lemma_alloc_takes_free_frame(s.frames);
}

/// Mapping a page only takes frames out of the free set.
pub(crate) proof fn lemma_map_frames_shrink(
    s: PagingState,
    hhdm_offset: u64,
    pml4: u64,
    virt: u64,
    phys: u64,
    flags: u64,
)
    requires
        s.frames.wf(),
    ensures
        map_outcome(s, hhdm_offset, pml4, virt, phys, flags).0.frames.wf(),
        map_outcome(s, hhdm_offset, pml4, virt, phys, flags).0.frames.free_set().subset_of(s.frames.free_set()),
{
    lemma_descend_frames(s, hhdm_offset, pml4, pml4_index(virt));
    match descend(s, hhdm_offset, pml4, pml4_index(virt)) {
        None => {},
        Some((s3, pdpt)) => {
            lemma_descend_frames(s3, hhdm_offset, pdpt, pdpt_index(virt));
            match descend(s3, hhdm_offset, pdpt, pdpt_index(virt)) {
                None => {},
                Some((s2, pd)) => {
                    lemma_descend_frames(s2, hhdm_offset, pd, pd_index(virt));
                },
            }
        },
    }
}

/// After a successful map of a present entry for a frame address and flags that leave the address
/// bits alone, `virt` translates to an entry whose address is `phys`: unmapping hands `phys` back.
/// The entry written is not shared with the levels above it, so `lemma_unmap_then_remap` applies
/// after the unmap.
pub proof fn lemma_map_then_unmap_returns_frame(
    s: PagingState,
    hhdm_offset: u64,
    pml4: u64,
    virt: u64,
    phys: u64,
    flags: u64,
)
    requires
        s.frames.wf(),
        hhdm_fits(hhdm_offset),
        tables_sized(s.mem),
        walk_valid(s.mem, hhdm_offset, pml4, virt),
        tables_not_free(s, hhdm_offset),
        is_frame_address(phys),
        is_flag_set(flags),
        flags & PageTableEntry::PRESENT != 0,
    ensures
        ({
            let (s2, r) = map_outcome(s, hhdm_offset, pml4, virt, phys, flags);
            r is Ok ==> {
                &&& walk_valid(s2.mem, hhdm_offset, pml4, virt)
                &&& leaf_entry_distinct(s2.mem, hhdm_offset, pml4, virt)
                &&& translate(s2.mem, hhdm_offset, pml4, virt) == Some(phys | flags)
                &&& entry_addr(phys | flags) == phys
            }
        }),
{
    lemma_map_then_translate(s, hhdm_offset, pml4, virt, phys, flags);
    lemma_entry_round_trip(phys, flags);
}

/// Clearing the last-level entry of a mapped page leaves `virt` without a translation.
pub proof fn lemma_unmap_clears_translation(mem: Map<u64, Seq<u64>>, hhdm_offset: u64, pml4: u64, virt: u64)
    requires
        tables_sized(mem),
        walk_valid(mem, hhdm_offset, pml4, virt),
        translate(mem, hhdm_offset, pml4, virt) is Some,
    ensures
        translate(
            with_entry(mem, leaf_table(mem, hhdm_offset, pml4, virt).unwrap(), pt_index(virt), 0),
            hhdm_offset,
            pml4,
            virt,
        ) is None,
{
    lemma_missing_entry();
    lemma_index_bound(virt, 39);
    lemma_index_bound(virt, 30);
    lemma_index_bound(virt, 21);
    lemma_index_bound(virt, 12);
    let pt = leaf_table(mem, hhdm_offset, pml4, virt).unwrap();
    let m = with_entry(mem, pt, pt_index(virt), 0);
    assert(m[pt][pt_index(virt)] == 0);
}

/// The last-level entry of the walk for `virt` is not also one of the three entries above it.
pub open spec fn leaf_entry_distinct(mem: Map<u64, Seq<u64>>, hhdm_offset: u64, pml4: u64, virt: u64) -> bool {
    let e4 = entry_at(mem, pml4, pml4_index(virt));
    let pdpt = child_table(e4, hhdm_offset);
    let e3 = entry_at(mem, pdpt, pdpt_index(virt));
    let pd = child_table(e3, hhdm_offset);
    let e2 = entry_at(mem, pd, pd_index(virt));
    let pt = child_table(e2, hhdm_offset);
    &&& (pt, pt_index(virt)) != (pml4, pml4_index(virt))
    &&& (pt, pt_index(virt)) != (pdpt, pdpt_index(virt))
    &&& (pt, pt_index(virt)) != (pd, pd_index(virt))
}

/// After unmapping a mapped page whose last-level entry is not shared with the levels above, the
/// page no longer translates, so a second unmap reports it unmapped, and mapping it again reuses
/// the existing tables: it succeeds without taking a frame.
pub proof fn lemma_unmap_then_remap(
    s: PagingState,
    hhdm_offset: u64,
    pml4: u64,
    virt: u64,
    phys: u64,
    flags: u64,
)
    requires
        tables_sized(s.mem),
        walk_valid(s.mem, hhdm_offset, pml4, virt),
        translate(s.mem, hhdm_offset, pml4, virt) is Some,
        leaf_entry_distinct(s.mem, hhdm_offset, pml4, virt),
    ensures
        ({
            let pt = leaf_table(s.mem, hhdm_offset, pml4, virt).unwrap();
            let cleared = with_entry(s.mem, pt, pt_index(virt), 0);
            &&& translate(cleared, hhdm_offset, pml4, virt) is None
            &&& walk_valid(cleared, hhdm_offset, pml4, virt)
            &&& map_outcome(PagingState { mem: cleared, ..s }, hhdm_offset, pml4, virt, phys, flags) == (
                PagingState { mem: with_entry(cleared, pt, pt_index(virt), phys | flags), ..s },
                Ok::<(), MapError>(()),
            )
        }),
{
    lemma_unmap_clears_translation(s.mem, hhdm_offset, pml4, virt);
    lemma_missing_entry();
    lemma_index_bound(virt, 39);
    lemma_index_bound(virt, 30);
    lemma_index_bound(virt, 21);
    lemma_index_bound(virt, 12);
    let pt = leaf_table(s.mem, hhdm_offset, pml4, virt).unwrap();
    let m = with_entry(s.mem, pt, pt_index(virt), 0);
    let e4 = entry_at(s.mem, pml4, pml4_index(virt));
    let pdpt = child_table(e4, hhdm_offset);
    let e3 = entry_at(s.mem, pdpt, pdpt_index(virt));
    let pd = child_table(e3, hhdm_offset);
    let e2 = entry_at(s.mem, pd, pd_index(virt));
    assert(s.mem.contains_key(pt));
    assert(s.mem[pt].len() == 512);
    assert(entry_present(entry_at(s.mem, pt, pt_index(virt))));
    assert(entry_at(m, pml4, pml4_index(virt)) == e4);
    assert(entry_at(m, pdpt, pdpt_index(virt)) == e3);
    assert(entry_at(m, pd, pd_index(virt)) == e2);
    assert(entry_at(m, pt, pt_index(virt)) == 0);
}

/// Entry `idx` of the table at `table` is one of the four entries that the walk for `virt` reads.
pub open spec fn on_walk(mem: Map<u64, Seq<u64>>, hhdm_offset: u64, pml4: u64, virt: u64, table: u64, idx: int) -> bool {
    let e4 = entry_at(mem, pml4, pml4_index(virt));
    let pdpt = child_table(e4, hhdm_offset);
    let e3 = entry_at(mem, pdpt, pdpt_index(virt));
    let pd = child_table(e3, hhdm_offset);
    let e2 = entry_at(mem, pd, pd_index(virt));
    let pt = child_table(e2, hhdm_offset);
    ||| (table, idx) == (pml4, pml4_index(virt))
    ||| (table, idx) == (pdpt, pdpt_index(virt))
    ||| (table, idx) == (pd, pd_index(virt))
    ||| (table, idx) == (pt, pt_index(virt))
}

/// Unmapping `virt` leaves every other translated page translating as before, unless its own
/// walk reads the entry that was cleared.
pub proof fn lemma_unmap_keeps_other_translations(
    mem: Map<u64, Seq<u64>>,
    hhdm_offset: u64,
    pml4: u64,
    virt: u64,
    other: u64,
)
    requires
        tables_sized(mem),
        walk_valid(mem, hhdm_offset, pml4, virt),
        translate(mem, hhdm_offset, pml4, virt) is Some,
        walk_valid(mem, hhdm_offset, pml4, other),
        translate(mem, hhdm_offset, pml4, other) is Some,
        !on_walk(mem, hhdm_offset, pml4, other, leaf_table(mem, hhdm_offset, pml4, virt).unwrap(), pt_index(virt)),
    ensures
        translate(
            with_entry(mem, leaf_table(mem, hhdm_offset, pml4, virt).unwrap(), pt_index(virt), 0),
            hhdm_offset,
            pml4,
            other,
        ) == translate(mem, hhdm_offset, pml4, other),
{
    lemma_index_bound(other, 39);
    lemma_index_bound(other, 30);
    lemma_index_bound(other, 21);
    lemma_index_bound(other, 12);
    lemma_index_bound(virt, 12);
    let pt0 = leaf_table(mem, hhdm_offset, pml4, virt).unwrap();
    assert(mem.contains_key(pt0));
    assert(mem[pt0].len() == 512);
    let m = with_entry(mem, pt0, pt_index(virt), 0);
    let e4 = entry_at(mem, pml4, pml4_index(other));
    let pdpt = child_table(e4, hhdm_offset);
    let e3 = entry_at(mem, pdpt, pdpt_index(other));
    let pd = child_table(e3, hhdm_offset);
    let e2 = entry_at(mem, pd, pd_index(other));
    let pt = child_table(e2, hhdm_offset);
    assert(entry_at(m, pml4, pml4_index(other)) == e4);
    assert(entry_at(m, pdpt, pdpt_index(other)) == e3);
    assert(entry_at(m, pd, pd_index(other)) == e2);
    assert(entry_at(m, pt, pt_index(other)) == entry_at(mem, pt, pt_index(other)));
}

proof fn lemma_index_bound(virt: u64, shift: u64)
    ensures
        0 <= table_index(virt, shift) < 512,
{
    let x = (virt >> shift) & 0x1FFu64;
    assert(x < 512) by (bit_vector)
        requires
            x == (virt >> shift) & 0x1FFu64,
    ;
}

} // verus!

verus! {

/// Which level of the walk for the kernel's base address lacks its entry.
#[derive(Debug, PartialEq, Eq, Structural)]
pub enum KernelMappingError {
    /// The top-level entry at this index is not present.
    Pml4EntryMissing(usize),
    /// The second-level entry at this index is not present.
    PdptEntryMissing(usize),
}

/// The top-level table, and the second-level table below the kernel's entry when that entry
/// is present, exist.
pub open spec fn kernel_walk_readable(mem: Map<u64, Seq<u64>>, hhdm_offset: u64, pml4: u64, virt: u64) -> bool {
    &&& mem.contains_key(pml4)
    &&& entry_present(entry_at(mem, pml4, pml4_index(virt))) ==> mem.contains_key(
        child_table(entry_at(mem, pml4, pml4_index(virt)), hhdm_offset),
    )
}

/// The outcome of checking that the two upper levels of the walk for `virt` are present.
pub open spec fn kernel_mapping_check(mem: Map<u64, Seq<u64>>, hhdm_offset: u64, pml4: u64, virt: u64) -> Result<(), KernelMappingError> {
    let e4 = entry_at(mem, pml4, pml4_index(virt));
    let e3 = entry_at(mem, child_table(e4, hhdm_offset), pdpt_index(virt));
    if !entry_present(e4) {
        Err(KernelMappingError::Pml4EntryMissing(pml4_index(virt) as usize))
    } else if !entry_present(e3) {
        Err(KernelMappingError::PdptEntryMissing(pdpt_index(virt) as usize))
    } else {
        Ok(())
    }
}

/// Checks that the tables rooted at `pml4` map the kernel's higher half: the top-level entry for
/// `boot.kernel_virt_base` and the second-level entry below it are present. Where a boot without
/// that mapping cannot go on, this returns the missing level as an error instead of stopping
/// the machine; the caller decides to halt.
pub fn init(mem: &PageTableMemory, boot: &BootInfo, pml4: u64) -> (r: Result<(), KernelMappingError>)
    requires
        hhdm_fits(boot.hhdm_offset),
        kernel_walk_readable(mem@, boot.hhdm_offset, pml4, boot.kernel_virt_base),
    ensures
        r == kernel_mapping_check(mem@, boot.hhdm_offset, pml4, boot.kernel_virt_base),
{
    let pml4_idx = index_of(boot.kernel_virt_base, 39);
    let pml4_entry = mem.read_entry(pml4, pml4_idx);
    if !pml4_entry.is_present() {
        return Err(KernelMappingError::Pml4EntryMissing(pml4_idx));
    }
    let pdpt = phys_to_virt(addr_of(pml4_entry), boot.hhdm_offset);
    let pdpt_idx = index_of(boot.kernel_virt_base, 30);
    let pdpt_entry = mem.read_entry(pdpt, pdpt_idx);
    if !pdpt_entry.is_present() {
        return Err(KernelMappingError::PdptEntryMissing(pdpt_idx));
    }
    Ok(())
}

} // verus!
