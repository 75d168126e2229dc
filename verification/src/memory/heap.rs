//! Kernel heap: a first-fit allocator over a singly linked free list kept inside the heap's own
//! memory. Each block starts with an 8-byte size header; a free block keeps the address of the
//! next free block in the 8 bytes after its header. An allocated block keeps, in the 8 bytes just
//! below the address handed out, a back pointer to its header. Blocks are 8-aligned multiples of
//! 8 bytes, never shorter than a free-list node.

use vstd::prelude::*;
use crate::arch::x86_64::paging::{
    map_outcome, map_page, map_reads_valid, hhdm_fits, tables_sized, PageTableEntry, PageTableMemory,
    PagingState,
};
use crate::memory::allocator::FrameAllocator;

verus! {

/// Size of a page in bytes.
pub const PAGE_SIZE: u64 = 4096;

/// Virtual address at which the kernel heap starts.
pub const HEAP_START: u64 = 0xFFFF_C000_0000_0000;

/// Pages mapped when the heap is set up (4 MiB).
pub const HEAP_INITIAL_PAGES: u64 = 1024;

/// Most pages the heap may span (1 GiB).
pub const HEAP_MAX_PAGES: u64 = 262144;

/// Bytes of the size header in front of every block.
pub const BLOCK_HEADER_SIZE: u64 = 8;

/// Smallest block the heap keeps or hands out: room for a free-list node, the size header and
/// the next link.
pub const MIN_BLOCK_SIZE: u64 = 16;

/// Bytes of the back pointer stored just below every address the heap hands out; it holds the
/// address of the block's header.
pub const BACK_POINTER_SIZE: u64 = 8;

/// The little-endian 64-bit word stored in `bytes` at offset `off`.
#[verifier::opaque]
pub open spec fn word_at(bytes: Seq<u8>, off: int) -> u64 {
    (bytes[off] as u64) | ((bytes[off + 1] as u64) << 8u64) | ((bytes[off + 2] as u64) << 16u64) | ((
    bytes[off + 3] as u64) << 24u64) | ((bytes[off + 4] as u64) << 32u64) | ((bytes[off + 5] as u64)
        << 40u64) | ((bytes[off + 6] as u64) << 48u64) | ((bytes[off + 7] as u64) << 56u64)
}

/// `bytes` with the little-endian encoding of `v` at offset `off`.
#[verifier::opaque]
pub open spec fn with_word(bytes: Seq<u8>, off: int, v: u64) -> Seq<u8> {
    bytes.update(off, (v & 0xffu64) as u8).update(off + 1, ((v >> 8u64) & 0xffu64) as u8).update(
        off + 2,
        ((v >> 16u64) & 0xffu64) as u8,
    ).update(off + 3, ((v >> 24u64) & 0xffu64) as u8).update(off + 4, ((v >> 32u64) & 0xffu64) as u8).update(
        off + 5,
        ((v >> 40u64) & 0xffu64) as u8,
    ).update(off + 6, ((v >> 48u64) & 0xffu64) as u8).update(off + 7, ((v >> 56u64) & 0xffu64) as u8)
}

proof fn lemma_bytes_roundtrip(v: u64)
    ensures
        (((v & 0xffu64) as u8) as u64) | ((((v >> 8u64) & 0xffu64) as u8 as u64) << 8u64) | ((((v
            >> 16u64) & 0xffu64) as u8 as u64) << 16u64) | ((((v >> 24u64) & 0xffu64) as u8 as u64)
            << 24u64) | ((((v >> 32u64) & 0xffu64) as u8 as u64) << 32u64) | ((((v >> 40u64)
            & 0xffu64) as u8 as u64) << 40u64) | ((((v >> 48u64) & 0xffu64) as u8 as u64) << 48u64)
            | ((((v >> 56u64) & 0xffu64) as u8 as u64) << 56u64) == v,
{
    assert((((v & 0xffu64) as u8) as u64) | ((((v >> 8u64) & 0xffu64) as u8 as u64) << 8u64) | ((((v
        >> 16u64) & 0xffu64) as u8 as u64) << 16u64) | ((((v >> 24u64) & 0xffu64) as u8 as u64)
        << 24u64) | ((((v >> 32u64) & 0xffu64) as u8 as u64) << 32u64) | ((((v >> 40u64) & 0xffu64)
        as u8 as u64) << 40u64) | ((((v >> 48u64) & 0xffu64) as u8 as u64) << 48u64) | ((((v
        >> 56u64) & 0xffu64) as u8 as u64) << 56u64) == v) by (bit_vector);
}

/// A word written at `off` reads back; words that do not overlap it are unchanged.
proof fn lemma_word_write(bytes: Seq<u8>, off: int, v: u64)
    requires
        0 <= off,
        off + 8 <= bytes.len(),
    ensures
        with_word(bytes, off, v).len() == bytes.len(),
        word_at(with_word(bytes, off, v), off) == v,
        forall|o: int|
            0 <= o && o + 8 <= bytes.len() && (o + 8 <= off || off + 8 <= o) ==> #[trigger] word_at(
                with_word(bytes, off, v),
                o,
            ) == word_at(bytes, o),
        forall|i: int|
            0 <= i < bytes.len() && (i < off || off + 8 <= i) ==> #[trigger] with_word(bytes, off, v)[i]
                == bytes[i],
{
    reveal(word_at);
    reveal(with_word);
    lemma_bytes_roundtrip(v);
    let b = with_word(bytes, off, v);
    assert(b[off] == (v & 0xffu64) as u8);
    assert(b[off + 1] == ((v >> 8u64) & 0xffu64) as u8);
    assert(b[off + 2] == ((v >> 16u64) & 0xffu64) as u8);
    assert(b[off + 3] == ((v >> 24u64) & 0xffu64) as u8);
    assert(b[off + 4] == ((v >> 32u64) & 0xffu64) as u8);
    assert(b[off + 5] == ((v >> 40u64) & 0xffu64) as u8);
    assert(b[off + 6] == ((v >> 48u64) & 0xffu64) as u8);
    assert(b[off + 7] == ((v >> 56u64) & 0xffu64) as u8);
    assert forall|o: int|
        0 <= o && o + 8 <= bytes.len() && (o + 8 <= off || off + 8 <= o) implies #[trigger] word_at(
            b,
            o,
        ) == word_at(bytes, o) by {
        assert(b[o] == bytes[o]);
        assert(b[o + 1] == bytes[o + 1]);
        assert(b[o + 2] == bytes[o + 2]);
        assert(b[o + 3] == bytes[o + 3]);
        assert(b[o + 4] == bytes[o + 4]);
        assert(b[o + 5] == bytes[o + 5]);
        assert(b[o + 6] == bytes[o + 6]);
        assert(b[o + 7] == bytes[o + 7]);
    }
}

/// The state of the heap as plain values.
pub ghost struct HeapModel {
    /// The bytes of `[heap_start, heap_current_end)`.
    pub memory: Seq<u8>,
    pub heap_start: u64,
    pub heap_current_end: u64,
    pub heap_max_end: u64,
    /// Address of the first free block, 0 when there is none.
    pub free_list: u64,
    /// Addresses of the free blocks in list order.
    pub nodes: Seq<u64>,
}

impl HeapModel {
    /// The word stored at heap address `addr`.
    pub open spec fn word(self, addr: int) -> u64 {
        word_at(self.memory, addr - self.heap_start)
    }

    /// The size header of the block at `addr`.
    pub open spec fn size_of(self, addr: int) -> u64 {
        self.word(addr)
    }

    /// The next link of the free block at `addr`.
    pub open spec fn next_of(self, addr: int) -> u64 {
        self.word(addr + 8)
    }

    /// The model with `v` written at heap address `addr`.
    pub open spec fn with_word_at(self, addr: int, v: u64) -> Self {
        HeapModel { memory: with_word(self.memory, addr - self.heap_start, v), ..self }
    }

    /// A word at `addr` lies inside the heap's memory.
    pub open spec fn word_in_heap(self, addr: int) -> bool {
        self.heap_start <= addr && addr + 8 <= self.heap_current_end
    }

    /// The bounds of the heap are consistent with its memory.
    pub open spec fn bounds_wf(self) -> bool {
        &&& 0 < self.heap_start <= self.heap_current_end <= self.heap_max_end
        &&& self.heap_start % 8 == 0
        &&& self.heap_max_end - self.heap_start == HEAP_MAX_PAGES * PAGE_SIZE
        &&& (self.heap_current_end - self.heap_start) % (PAGE_SIZE as int) == 0
        &&& self.heap_max_end + HEAP_MAX_PAGES * PAGE_SIZE <= u64::MAX
        &&& self.memory.len() == self.heap_current_end - self.heap_start
    }

    /// The link that follows node `i`.
    pub open spec fn successor(self, i: int) -> u64 {
        if i + 1 < self.nodes.len() {
            self.nodes[i + 1]
        } else {
            0
        }
    }

    /// Free block `i` lies inside the heap, is at least a node long, and links to its successor.
    pub open spec fn node_ok(self, i: int) -> bool {
        &&& self.nodes[i] % 8 == 0
        &&& self.size_of(self.nodes[i] as int) % 8 == 0
        &&& self.heap_start <= self.nodes[i]
        &&& MIN_BLOCK_SIZE <= self.size_of(self.nodes[i] as int)
        &&& self.nodes[i] + self.size_of(self.nodes[i] as int) <= self.heap_current_end
        &&& self.next_of(self.nodes[i] as int) == self.successor(i)
    }

    /// Free block `j` does not start inside free block `i`.
    pub open spec fn apart(self, i: int, j: int) -> bool {
        !(self.nodes[i] <= self.nodes[j] < self.nodes[i] + self.size_of(self.nodes[i] as int))
    }

    /// The free list stored in memory is the chain `nodes`: the head points at the first node,
    /// each node links to the next and the last to 0; every free block is at least a node long,
    /// lies inside the heap, and no free block starts inside another one.
    pub open spec fn wf(self) -> bool {
        &&& self.bounds_wf()
        &&& self.free_list == if self.nodes.len() == 0 {
            0
        } else {
            self.nodes[0]
        }
        &&& forall|i: int| 0 <= i < self.nodes.len() ==> #[trigger] self.node_ok(i)
        &&& forall|i: int, j: int|
            0 <= i < self.nodes.len() && 0 <= j < self.nodes.len() && i != j ==> #[trigger] self.apart(i, j)
    }
}

/// The kernel heap.
pub struct LinkedListHeap {
    free_list: u64,
    heap_start: u64,
    heap_current_end: u64,
    heap_max_end: u64,
    memory: Vec<u8>,
    nodes: Ghost<Seq<u64>>,
}

impl View for LinkedListHeap {
    type V = HeapModel;

    closed spec fn view(&self) -> HeapModel {
        HeapModel {
            memory: self.memory@,
            heap_start: self.heap_start,
            heap_current_end: self.heap_current_end,
            heap_max_end: self.heap_max_end,
            free_list: self.free_list,
            nodes: self.nodes@,
        }
    }
}

impl LinkedListHeap {
    /// An empty heap starting at `start`, allowed to grow to `HEAP_MAX_PAGES` pages.
    pub fn new(start: u64) -> (h: Self)
        requires
            start + HEAP_MAX_PAGES * PAGE_SIZE <= u64::MAX,
        ensures
            h@ == (HeapModel {
                memory: Seq::empty(),
                heap_start: start,
                heap_current_end: start,
                heap_max_end: (start + HEAP_MAX_PAGES * PAGE_SIZE) as u64,
                free_list: 0,
                nodes: Seq::empty(),
            }),
            start > 0 && start % 8 == 0 && start + 2 * HEAP_MAX_PAGES * PAGE_SIZE <= u64::MAX ==> h@.wf(),
    {
        LinkedListHeap {
            free_list: 0,
            heap_start: start,
            heap_current_end: start,
            heap_max_end: start + HEAP_MAX_PAGES * PAGE_SIZE,
            memory: Vec::new(),
            nodes: Ghost(Seq::empty()),
        }
    }

    /// Reads the word at heap address `addr`.
    fn read_word(&self, addr: u64) -> (v: u64)
        requires
            self@.bounds_wf(),
            self@.word_in_heap(addr as int),
        ensures
            v == self@.word(addr as int),
    {
        reveal(word_at);
        let len = self.memory.len();
        let o = (addr - self.heap_start) as usize;
        (self.memory[o] as u64) | ((self.memory[o + 1] as u64) << 8u64) | ((self.memory[o + 2] as u64)
            << 16u64) | ((self.memory[o + 3] as u64) << 24u64) | ((self.memory[o + 4] as u64) << 32u64)
            | ((self.memory[o + 5] as u64) << 40u64) | ((self.memory[o + 6] as u64) << 48u64) | ((
        self.memory[o + 7] as u64) << 56u64)
    }

    /// Writes `v` at heap address `addr`.
    fn write_word(&mut self, addr: u64, v: u64)
        requires
            old(self)@.bounds_wf(),
            old(self)@.word_in_heap(addr as int),
        ensures
            final(self)@ == old(self)@.with_word_at(addr as int, v),
            final(self)@.bounds_wf(),
    {
        let len = self.memory.len();
        let o = (addr - self.heap_start) as usize;
        self.memory[o] = (v & 0xff) as u8;
        self.memory[o + 1] = ((v >> 8u64) & 0xff) as u8;
        self.memory[o + 2] = ((v >> 16u64) & 0xff) as u8;
        self.memory[o + 3] = ((v >> 24u64) & 0xff) as u8;
        self.memory[o + 4] = ((v >> 32u64) & 0xff) as u8;
        self.memory[o + 5] = ((v >> 40u64) & 0xff) as u8;
        self.memory[o + 6] = ((v >> 48u64) & 0xff) as u8;
        self.memory[o + 7] = ((v >> 56u64) & 0xff) as u8;
        reveal(with_word);
        assert(self.memory@ =~= with_word(old(self).memory@, o as int, v));
    }
}


/// `align` is a power of two.
pub open spec fn is_power_of_two(align: u64) -> bool {
    align != 0 && align & ((align - 1) as u64) == 0
}

/// `x` rounded up to a multiple of the power of two `align`.
pub open spec fn round_up(x: u64, align: u64) -> u64 {
    ((x + align - 1) as u64) & !((align - 1) as u64)
}

proof fn lemma_round_up(x: u64, align: u64)
    requires
        is_power_of_two(align),
        x + align - 1 <= u64::MAX,
    ensures
        x <= round_up(x, align),
        round_up(x, align) < x + align,
{
    let y = (x + align - 1) as u64;
    let a1 = (align - 1) as u64;
    assert(y & !a1 <= y) by (bit_vector);
    assert(y - (y & !a1) <= a1) by (bit_vector)
        requires
            align != 0,
            align & a1 == 0,
            a1 + 1 == align,
    ;
}

impl HeapModel {
    /// The index of the first free block, in list order from node `k`, whose size is at least
    /// `total`.
    pub open spec fn first_fit_from(self, total: u64, k: int) -> Option<int>
        decreases self.nodes.len() - k,
    {
        if k < 0 || k >= self.nodes.len() {
            None
        } else if self.size_of(self.nodes[k] as int) >= total {
            Some(k)
        } else {
            self.first_fit_from(total, k + 1)
        }
    }

    /// The first free block in list order whose size is at least `total`.
    pub open spec fn first_fit(self, total: u64) -> Option<int> {
        self.first_fit_from(total, 0)
    }

    /// The model with the link that leads to node `k` (the head, or the previous node's next
    /// field) replaced by `v`.
    pub open spec fn relink(self, k: int, v: u64) -> Self {
        if k > 0 {
            self.with_word_at(self.nodes[k - 1] + 8, v)
        } else {
            HeapModel { free_list: v, ..self }
        }
    }

    /// The address handed out for an allocation aligned to `align` from the block at `block`: the
    /// first aligned address past the header and the back pointer.
    pub open spec fn user_addr(block: u64, align: u64) -> u64 {
        round_up((block + BLOCK_HEADER_SIZE + BACK_POINTER_SIZE) as u64, align)
    }

    /// Bytes an allocation of `size` with `align` takes from the front of the block at `block`:
    /// header, padding, back pointer and the object, rounded up to a multiple of 8.
    pub open spec fn used_bytes(block: u64, size: u64, align: u64) -> int {
        round_up8(Self::user_addr(block, align) - block + size)
    }

    /// Carving an allocation out of node `k` splits it: the rest is at least a free-list node.
    pub open spec fn splits(self, k: int, size: u64, align: u64) -> bool {
        self.size_of(self.nodes[k] as int) >= Self::used_bytes(self.nodes[k], size, align) + MIN_BLOCK_SIZE
    }

    /// The free list after taking node `k` for an allocation of `size` with `align`: the node is
    /// split, its rest staying in the list in its place, or it leaves the list whole.
    pub open spec fn carve(self, k: int, size: u64, align: u64) -> Self {
        let block = self.nodes[k];
        let block_size = self.size_of(block as int);
        let total_used = Self::used_bytes(block, size, align);
        if self.splits(k, size, align) {
            let rem = (block + total_used) as u64;
            let m1 = self.with_word_at(rem as int, (block_size - total_used) as u64);
            let m2 = m1.with_word_at(rem + 8, m1.next_of(block as int));
            let m3 = m2.with_word_at(block as int, total_used as u64);
            let m4 = m3.relink(k, rem);
            HeapModel { nodes: self.nodes.update(k, rem), ..m4 }
        } else {
            let m1 = self.relink(k, self.next_of(block as int));
            HeapModel { nodes: self.nodes.remove(k), ..m1 }
        }
    }

    /// The state after an allocation of `size` with `align` from node `k`, and the address handed
    /// out: the carved list with the back pointer to the block written below that address.
    pub open spec fn after_allocate(self, k: int, size: u64, align: u64) -> (Self, u64) {
        let block = self.nodes[k];
        let p = Self::user_addr(block, align);
        (self.carve(k, size, align).with_word_at(p - BACK_POINTER_SIZE, block), p)
    }

    /// The allocation arithmetic on node `k` stays within `u64`.
    pub open spec fn allocate_fits(self, k: int, size: u64, align: u64) -> bool {
        self.nodes[k] + BLOCK_HEADER_SIZE + BACK_POINTER_SIZE + align - 1 + size + 7 + MIN_BLOCK_SIZE <= u64::MAX
    }
}

/// `x` rounded up to a multiple of 8.
pub open spec fn round_up8(x: int) -> int {
    (x + 7) / 8 * 8
}

proof fn lemma_round_up8(x: int)
    requires
        x >= 0,
    ensures
        x <= round_up8(x) < x + 8,
        round_up8(x) % 8 == 0,
{
    assert(x <= (x + 7) / 8 * 8 < x + 8) by (nonlinear_arith)
        requires
            x >= 0,
    ;
    assert(((x + 7) / 8 * 8) % 8 == 0) by (nonlinear_arith);
}

proof fn lemma_round_up8_monotone(x: int, y: int)
    requires
        0 <= x <= y,
    ensures
        round_up8(x) <= round_up8(y),
{
    vstd::arithmetic::div_mod::lemma_div_is_ordered(x + 7, y + 7, 8);
    assert((x + 7) / 8 * 8 <= (y + 7) / 8 * 8) by (nonlinear_arith)
        requires
            (x + 7) / 8 <= (y + 7) / 8,
    ;
}

/// The bytes an allocation of `size` with `align` asks of a block: header, back pointer,
/// worst-case padding and the object, rounded up to a multiple of 8.
pub open spec fn total_size(size: u64, align: u64) -> int {
    round_up8(BLOCK_HEADER_SIZE + BACK_POINTER_SIZE + size + (align - 1))
}

/// A word written at `a` reads back, keeps the bounds, and leaves alone every word that does
/// not overlap it.
proof fn lemma_write_frame(m: HeapModel, a: int, v: u64)
    requires
        m.bounds_wf(),
        m.word_in_heap(a),
    ensures
        m.with_word_at(a, v).bounds_wf(),
        m.with_word_at(a, v).word(a) == v,
        forall|o: int|
            m.word_in_heap(o) && (a + 8 <= o || o + 8 <= a) ==> #[trigger] m.with_word_at(a, v).word(o)
                == m.word(o),
{
    lemma_word_write(m.memory, a - m.heap_start, v);
    assert forall|o: int|
        m.word_in_heap(o) && (a + 8 <= o || o + 8 <= a) implies #[trigger] m.with_word_at(a, v).word(o)
            == m.word(o) by {
        assert(word_at(with_word(m.memory, a - m.heap_start, v), o - m.heap_start) == word_at(m.memory, o - m.heap_start));
    }
}

/// Where an allocation from the block at `b` puts its address and how many bytes it takes.
proof fn lemma_used_bytes(b: u64, size: u64, align: u64)
    requires
        is_power_of_two(align),
        b + BLOCK_HEADER_SIZE + BACK_POINTER_SIZE + align - 1 + size + 7 <= u64::MAX,
    ensures
        ({
            let p = HeapModel::user_addr(b, align);
            let t = HeapModel::used_bytes(b, size, align);
            &&& b + BLOCK_HEADER_SIZE + BACK_POINTER_SIZE <= p < b + BLOCK_HEADER_SIZE + BACK_POINTER_SIZE + align
            &&& p + size <= b + t
            &&& t < p - b + size + 8
            &&& t % 8 == 0
            &&& MIN_BLOCK_SIZE <= t <= total_size(size, align)
        }),
{
    lemma_round_up((b + BLOCK_HEADER_SIZE + BACK_POINTER_SIZE) as u64, align);
    let p = HeapModel::user_addr(b, align);
    lemma_round_up8(p - b + size);
    lemma_round_up8_monotone(p - b + size, BLOCK_HEADER_SIZE + BACK_POINTER_SIZE + size + (align - 1));
}

/// The fields of the nodes other than `k` after a split of node `k`.
#[verifier::spinoff_prover]
proof fn lemma_split_other(m: HeapModel, k: int, size: u64, align: u64, i: int)
    requires
        m.wf(),
        0 <= k < m.nodes.len(),
        0 <= i < m.nodes.len(),
        i != k,
        is_power_of_two(align),
        m.allocate_fits(k, size, align),
        m.splits(k, size, align),
        HeapModel::used_bytes(m.nodes[k], size, align) >= MIN_BLOCK_SIZE,
    ensures
        ({
            let r = m.carve(k, size, align);
            let rem = (m.nodes[k] + HeapModel::used_bytes(m.nodes[k], size, align)) as u64;
            &&& r.size_of(m.nodes[i] as int) == m.size_of(m.nodes[i] as int)
            &&& r.next_of(m.nodes[i] as int) == if i == k - 1 {
                rem
            } else {
                m.next_of(m.nodes[i] as int)
            }
            &&& r.bounds_wf()
        }),
{
    let b = m.nodes[k];
    let bs = m.size_of(b as int);
    lemma_used_bytes(b, size, align);
    let t = HeapModel::used_bytes(b, size, align);
    let rem = (b + t) as u64;
    let n = m.nodes[i];
    assert(m.node_ok(k));
    assert(m.node_ok(i));
    assert(m.apart(k, i));
    assert(m.apart(i, k));
    let m1 = m.with_word_at(rem as int, (bs - t) as u64);
    lemma_write_frame(m, rem as int, (bs - t) as u64);
    let nx = m1.next_of(b as int);
    let m2 = m1.with_word_at(rem + 8, nx);
    lemma_write_frame(m1, rem + 8, nx);
    let m3 = m2.with_word_at(b as int, t as u64);
    lemma_write_frame(m2, b as int, t as u64);
    assert(m1.size_of(n as int) == m.size_of(n as int));
    assert(m1.next_of(n as int) == m.next_of(n as int));
    assert(m2.size_of(n as int) == m.size_of(n as int));
    assert(m2.next_of(n as int) == m.next_of(n as int));
    assert(m3.size_of(n as int) == m.size_of(n as int));
    assert(m3.next_of(n as int) == m.next_of(n as int));
    let m4 = m3.relink(k, rem);
    if k > 0 {
        let p = m.nodes[k - 1];
        assert(m.node_ok(k - 1));
        assert(m.apart(k - 1, k));
        assert(m.apart(k, k - 1));
        lemma_write_frame(m3, p + 8, rem);
        if i != k - 1 {
            assert(m.apart(k - 1, i));
            assert(m.apart(i, k - 1));
            assert(m4.size_of(n as int) == m3.size_of(n as int));
            assert(m4.next_of(n as int) == m3.next_of(n as int));
        } else {
            assert(m4.size_of(n as int) == m3.size_of(n as int));
            assert(m4.word(n + 8) == rem);
        }
    }
    let r = m.carve(k, size, align);
    assert(r.memory == m4.memory);
}

/// The remainder left by a split of node `k`.
#[verifier::spinoff_prover]
proof fn lemma_split_rem(m: HeapModel, k: int, size: u64, align: u64)
    requires
        m.wf(),
        0 <= k < m.nodes.len(),
        is_power_of_two(align),
        m.allocate_fits(k, size, align),
        m.splits(k, size, align),
        HeapModel::used_bytes(m.nodes[k], size, align) >= MIN_BLOCK_SIZE,
    ensures
        ({
            let r = m.carve(k, size, align);
            let b = m.nodes[k];
            let t = HeapModel::used_bytes(b, size, align);
            let rem = (b + t) as u64;
            &&& r.size_of(rem as int) == m.size_of(b as int) - t
            &&& r.size_of(b as int) == t
            &&& r.next_of(rem as int) == m.next_of(b as int)
            &&& b + MIN_BLOCK_SIZE <= rem
            &&& rem + r.size_of(rem as int) == b + m.size_of(b as int)
            &&& r.bounds_wf()
        }),
{
    let b = m.nodes[k];
    let bs = m.size_of(b as int);
    lemma_used_bytes(b, size, align);
    let t = HeapModel::used_bytes(b, size, align);
    let rem = (b + t) as u64;
    assert(m.node_ok(k));
    let m1 = m.with_word_at(rem as int, (bs - t) as u64);
    lemma_write_frame(m, rem as int, (bs - t) as u64);
    let nx = m1.next_of(b as int);
    let m2 = m1.with_word_at(rem + 8, nx);
    lemma_write_frame(m1, rem + 8, nx);
    assert(m1.size_of(rem as int) == (bs - t) as u64);
    assert(m2.size_of(rem as int) == (bs - t) as u64);
    assert(m2.next_of(rem as int) == nx);
    assert(nx == m.next_of(b as int));
    let m3 = m2.with_word_at(b as int, t as u64);
    lemma_write_frame(m2, b as int, t as u64);
    assert(m3.size_of(rem as int) == (bs - t) as u64);
    assert(m3.next_of(rem as int) == nx);
    assert(m3.size_of(b as int) == t);
    let m4 = m3.relink(k, rem);
    if k > 0 {
        let p = m.nodes[k - 1];
        assert(m.node_ok(k - 1));
        assert(m.apart(k - 1, k));
        assert(m.apart(k, k - 1));
        lemma_write_frame(m3, p + 8, rem);
        assert(m4.size_of(rem as int) == m3.size_of(rem as int));
        assert(m4.next_of(rem as int) == m3.next_of(rem as int));
        assert(m4.size_of(b as int) == m3.size_of(b as int));
    }
    let r = m.carve(k, size, align);
    assert(r.memory == m4.memory);
}

/// Carving an allocation out of node `k` and keeping the rest as a free block keeps the free
/// list well formed.
#[verifier::spinoff_prover]
proof fn lemma_allocate_split_wf(m: HeapModel, k: int, size: u64, align: u64)
    requires
        m.wf(),
        0 <= k < m.nodes.len(),
        is_power_of_two(align),
        m.allocate_fits(k, size, align),
        m.splits(k, size, align),
        HeapModel::used_bytes(m.nodes[k], size, align) >= MIN_BLOCK_SIZE,
    ensures
        m.carve(k, size, align).wf(),
{
    let r = m.carve(k, size, align);
    let b = m.nodes[k];
    let bs = m.size_of(b as int);
    let t = HeapModel::used_bytes(b, size, align);
    let rem = (b + t) as u64;
    lemma_split_rem(m, k, size, align);
    assert(m.node_ok(k));
    assert(r.nodes == m.nodes.update(k, rem));
    if m.nodes.len() > 1 {
        lemma_split_other(m, k, size, align, if k == 0 { 1 } else { 0 });
    }
    assert forall|i: int| 0 <= i < r.nodes.len() implies #[trigger] r.node_ok(i) by {
        if i != k {
            lemma_split_other(m, k, size, align, i);
            assert(m.node_ok(i));
        }
    }
    assert forall|i: int, j: int|
        0 <= i < r.nodes.len() && 0 <= j < r.nodes.len() && i != j implies #[trigger] r.apart(i, j) by {
        if i != k {
            lemma_split_other(m, k, size, align, i);
        }
        assert(m.apart(i, j));
        assert(m.apart(j, i));
        assert(m.node_ok(i));
        assert(m.node_ok(j));
    }
}

/// Handing out the whole of node `k` keeps the free list well formed.
#[verifier::spinoff_prover]
proof fn lemma_allocate_unlink_wf(m: HeapModel, k: int, size: u64, align: u64)
    requires
        m.wf(),
        0 <= k < m.nodes.len(),
        !m.splits(k, size, align),
    ensures
        m.carve(k, size, align).wf(),
        m.carve(k, size, align).size_of(m.nodes[k] as int) == m.size_of(m.nodes[k] as int),
        forall|i: int|
            0 <= i < m.nodes.len() && i != k ==> #[trigger] m.carve(k, size, align).size_of(
                m.nodes[i] as int,
            ) == m.size_of(m.nodes[i] as int),
{
    let r = m.carve(k, size, align);
    let b = m.nodes[k];
    let nx = m.next_of(b as int);
    assert(m.node_ok(k));
    let m1 = m.relink(k, nx);
    if k > 0 {
        let p = m.nodes[k - 1];
        assert(m.node_ok(k - 1));
        lemma_write_frame(m, p + 8, nx);
    }
    assert(r.memory == m1.memory);
    assert(r.nodes == m.nodes.remove(k));
    assert forall|i: int| 0 <= i < m.nodes.len() && i != k implies {
        &&& #[trigger] r.size_of(m.nodes[i] as int) == m.size_of(m.nodes[i] as int)
        &&& r.next_of(m.nodes[i] as int) == if i == k - 1 {
            nx
        } else {
            m.next_of(m.nodes[i] as int)
        }
    } by {
        let n = m.nodes[i];
        assert(m.node_ok(i));
        if k > 0 {
            let p = m.nodes[k - 1];
            lemma_write_frame(m, p + 8, nx);
            if i != k - 1 {
                assert(m.apart(k - 1, i));
                assert(m.apart(i, k - 1));
                assert(m1.word(n + 8) == m.word(n + 8));
            } else {
                assert(m1.word(p + 8) == nx);
            }
            assert(m1.word(n as int) == m.word(n as int));
        }
        assert(r.word(n as int) == m1.word(n as int));
        assert(r.word(n + 8) == m1.word(n + 8));
    }
    assert forall|i: int| 0 <= i < r.nodes.len() implies #[trigger] r.node_ok(i) by {
        let oi = if i < k { i } else { i + 1 };
        assert(r.nodes[i] == m.nodes[oi]);
        assert(m.node_ok(oi));
        assert(r.size_of(m.nodes[oi] as int) == m.size_of(m.nodes[oi] as int));
    }
    assert forall|i: int, j: int|
        0 <= i < r.nodes.len() && 0 <= j < r.nodes.len() && i != j implies #[trigger] r.apart(i, j) by {
        let oi = if i < k { i } else { i + 1 };
        let oj = if j < k { j } else { j + 1 };
        assert(r.nodes[i] == m.nodes[oi]);
        assert(r.nodes[j] == m.nodes[oj]);
        assert(m.apart(oi, oj));
        assert(r.size_of(m.nodes[oi] as int) == m.size_of(m.nodes[oi] as int));
    }
    if k > 0 {
        let p = m.nodes[k - 1];
        lemma_write_frame(m, p + 8, nx);
        assert(m.apart(k - 1, k));
        assert(m.apart(k, k - 1));
        assert(m1.word(b as int) == m.word(b as int));
    }
    assert(r.word(b as int) == m1.word(b as int));
}

/// Writing a word that overlaps no free-list node's header or link keeps the list well formed and
/// every node's size and link.
#[verifier::spinoff_prover]
proof fn lemma_write_outside_nodes(r: HeapModel, a: int, v: u64)
    requires
        r.wf(),
        r.word_in_heap(a),
        forall|i: int| 0 <= i < r.nodes.len() ==> #[trigger] r.nodes[i] + MIN_BLOCK_SIZE <= a || a + 8 <= r.nodes[i],
    ensures
        r.with_word_at(a, v).wf(),
        forall|i: int|
            0 <= i < r.nodes.len() ==> #[trigger] r.with_word_at(a, v).size_of(r.nodes[i] as int) == r.size_of(
                r.nodes[i] as int,
            ) && r.with_word_at(a, v).next_of(r.nodes[i] as int) == r.next_of(r.nodes[i] as int),
{
    lemma_write_frame(r, a, v);
    let w = r.with_word_at(a, v);
    assert forall|i: int| 0 <= i < r.nodes.len() implies #[trigger] w.size_of(r.nodes[i] as int) == r.size_of(
        r.nodes[i] as int,
    ) && w.next_of(r.nodes[i] as int) == r.next_of(r.nodes[i] as int) by {
        assert(r.node_ok(i));
    }
    assert forall|i: int| 0 <= i < w.nodes.len() implies #[trigger] w.node_ok(i) by {
        assert(r.node_ok(i));
    }
    assert forall|i: int, j: int|
        0 <= i < w.nodes.len() && 0 <= j < w.nodes.len() && i != j implies #[trigger] w.apart(i, j) by {
        assert(r.apart(i, j));
        assert(r.node_ok(i));
    }
}

/// What an allocation from node `k` does: the list stays well formed, the handed-out address `p`
/// is aligned past the header and the back pointer, the object fits in the block, the back
/// pointer below `p` holds the block's address, the block's header holds its size (a multiple of
/// 8, at least a node), a split leaves an 8-aligned rest, and the object overlaps no free block.
pub proof fn lemma_allocate_facts(m: HeapModel, k: int, size: u64, align: u64)
    requires
        m.wf(),
        0 <= k < m.nodes.len(),
        is_power_of_two(align),
        total_size(size, align) <= u64::MAX,
        m.size_of(m.nodes[k] as int) >= total_size(size, align),
    ensures
        m.allocate_fits(k, size, align),
        ({
            let (h, p) = m.after_allocate(k, size, align);
            let b = m.nodes[k];
            &&& h.wf()
            &&& h.heap_start == m.heap_start && h.heap_current_end == m.heap_current_end
            &&& h.heap_max_end == m.heap_max_end
            &&& p & ((align - 1) as u64) == 0
            &&& b + BLOCK_HEADER_SIZE + BACK_POINTER_SIZE <= p
            &&& p + size <= b + h.size_of(b as int) <= h.heap_current_end
            &&& h.block_header(p) == b
            &&& h.back_pointer_in_heap(p)
            &&& h.size_of(b as int) % 8 == 0
            &&& MIN_BLOCK_SIZE <= h.size_of(b as int) <= m.size_of(b as int)
            &&& !m.splits(k, size, align) ==> h.size_of(b as int) == m.size_of(b as int)
            &&& m.splits(k, size, align) ==> h.nodes[k] == b + h.size_of(b as int) && h.nodes[k] % 8 == 0
            &&& m.splits(k, size, align) ==> h.size_of(h.nodes[k] as int) == m.size_of(b as int) - h.size_of(
                b as int,
            )
            &&& forall|i: int|
                0 <= i < m.nodes.len() && i != k ==> #[trigger] h.size_of(m.nodes[i] as int) == m.size_of(
                    m.nodes[i] as int,
                )
            &&& forall|i: int|
                0 <= i < h.nodes.len() ==> !(#[trigger] h.nodes[i] <= b < h.nodes[i] + h.size_of(h.nodes[i] as int))
                    && !(b <= h.nodes[i] < b + h.size_of(b as int))
            &&& forall|i: int|
                0 <= i < h.nodes.len() ==> #[trigger] h.nodes[i] + h.size_of(h.nodes[i] as int) <= p || p
                    + size <= h.nodes[i]
        }),
{
    assert(m.node_ok(k));
    let b = m.nodes[k];
    let bs = m.size_of(b as int);
    lemma_round_up8(BLOCK_HEADER_SIZE + BACK_POINTER_SIZE + size + (align - 1));
    lemma_used_bytes(b, size, align);
    let t = HeapModel::used_bytes(b, size, align);
    let p = HeapModel::user_addr(b, align);
    lemma_round_up_aligned((b + BLOCK_HEADER_SIZE + BACK_POINTER_SIZE) as u64, align);
    let c = m.carve(k, size, align);
    if m.splits(k, size, align) {
        lemma_allocate_split_wf(m, k, size, align);
        lemma_split_rem(m, k, size, align);
    } else {
        lemma_allocate_unlink_wf(m, k, size, align);
    }
    let cs = c.size_of(b as int);
    assert(cs == if m.splits(k, size, align) { t } else { bs as int });
    // Sizes of the nodes that stay.
    assert forall|i: int| 0 <= i < c.nodes.len() implies {
        &&& !(#[trigger] c.nodes[i] <= b < c.nodes[i] + c.size_of(c.nodes[i] as int))
        &&& !(b <= c.nodes[i] < b + cs)
        &&& (c.nodes[i] + MIN_BLOCK_SIZE <= p - BACK_POINTER_SIZE || p <= c.nodes[i])
        &&& (c.nodes[i] + c.size_of(c.nodes[i] as int) <= p || p + size <= c.nodes[i])
    } by {
        assert(c.node_ok(i));
        if m.splits(k, size, align) {
            if i != k {
                lemma_split_other(m, k, size, align, i);
                assert(m.node_ok(i));
                assert(m.apart(i, k));
                assert(m.apart(k, i));
            }
        } else {
            let oi = if i < k { i } else { i + 1 };
            assert(c.nodes[i] == m.nodes[oi]);
            assert(m.node_ok(oi));
            assert(m.apart(oi, k));
            assert(m.apart(k, oi));
        }
    }
    assert(c.word_in_heap(p - BACK_POINTER_SIZE));
    lemma_write_outside_nodes(c, p - BACK_POINTER_SIZE, b);
    lemma_write_frame(c, p - BACK_POINTER_SIZE, b);
    let h = m.after_allocate(k, size, align).0;
    assert(h == c.with_word_at(p - BACK_POINTER_SIZE, b));
    assert(h.size_of(b as int) == cs);
    if m.splits(k, size, align) {
        assert(h.nodes[k] == c.nodes[k]);
        assert(h.size_of(c.nodes[k] as int) == c.size_of(c.nodes[k] as int));
    }
    assert forall|i: int| 0 <= i < h.nodes.len() implies #[trigger] h.size_of(h.nodes[i] as int) == c.size_of(
        c.nodes[i] as int,
    ) by {
    }
    assert forall|i: int| 0 <= i < m.nodes.len() && i != k implies #[trigger] h.size_of(m.nodes[i] as int)
        == m.size_of(m.nodes[i] as int) by {
        if m.splits(k, size, align) {
            lemma_split_other(m, k, size, align, i);
            assert(c.nodes[i] == m.nodes[i]);
        } else {
            let ci = if i < k { i } else { i - 1 };
            assert(c.nodes[ci] == m.nodes[i]);
        }
    }    if m.splits(k, size, align) {
        assert(h.size_of(h.nodes[k] as int) == c.size_of(c.nodes[k] as int));
    }
}

/// An allocation carved out of the first free block `k` that fits is found again by
/// deallocation: the back pointer below the returned address leads to the block's header, and
/// returning the block keeps the free list well formed.
pub proof fn lemma_allocate_then_dealloc(m: HeapModel, size: u64, align: u64, k: int)
    requires
        m.wf(),
        is_power_of_two(align),
        total_size(size, align) <= u64::MAX,
        m.first_fit(total_size(size, align) as u64) == Some(k),
    ensures
        ({
            let (h, p) = m.after_allocate(k, size, align);
            &&& h.wf()
            &&& h.block_header(p) == m.nodes[k]
            &&& h.dealloc_ok(p)
            &&& h.after_dealloc(p) == h.after_insert(m.nodes[k])
            &&& h.after_dealloc(p).wf()
        }),
{
    let total = total_size(size, align) as u64;
    lemma_first_fit(m, total, 0);
    lemma_allocate_facts(m, k, size, align);
    let b = m.nodes[k];
    let (h, p) = m.after_allocate(k, size, align);
    assert(m.node_ok(k));
    assert(b != 0);
    assert(p != 0);
    assert(h.insert_ok(b));
    lemma_insert_keeps_wf(h, b);
}

impl LinkedListHeap {
    /// Walks the free list for the first block of at least `total` bytes; returns it with the
    /// node before it (0 at the head) and its position in the list.
    fn find_fit(&self, total: u64) -> (r: Option<(u64, u64, Ghost<int>)>)
        requires
            self@.wf(),
        ensures
            match self@.first_fit(total) {
                None => r is None,
                Some(k) => r matches Some((block, prev, gk)) && gk@ == k && block == self@.nodes[k] && prev == if k > 0 {
                    self@.nodes[k - 1]
                } else {
                    0
                },
            },
    {
        let ghost m = self@;
        let mut current = self.free_list;
        let mut prev: u64 = 0;
        let ghost mut k: int = 0;
        while current != 0
            invariant
                m == self@,
                m.wf(),
                0 <= k <= m.nodes.len(),
                current == if k < m.nodes.len() { m.nodes[k] } else { 0 },
                prev == if k > 0 { m.nodes[k - 1] } else { 0 },
                m.first_fit(total) == m.first_fit_from(total, k),
            decreases m.nodes.len() - k,
        {
            proof {
                if k >= m.nodes.len() {
                    assert(false);
                }
                assert(m.node_ok(k));
            }
            let size = self.read_word(current);
            if size >= total {
                return Some((current, prev, Ghost(k)));
            }
            prev = current;
            current = self.read_word(current + 8);
            proof {
                k = k + 1;
            }
        }
        proof {
            if k < m.nodes.len() {
                assert(m.node_ok(k));
            }
        }
        None
    }

    /// Carves an allocation of `alloc_size` bytes aligned to `alloc_align` out of the free block
    /// `block` (node `k`, after `prev`): the allocation takes the header, the padding, the back
    /// pointer and the object, rounded up to a multiple of 8; when at least a node is left the rest
    /// stays free as a new block, otherwise the whole block leaves the list. The back pointer to
    /// the block is written just below the aligned address, which is returned.
    #[verifier::spinoff_prover]
    fn allocate_from_block(
        &mut self,
        block: u64,
        prev: u64,
        alloc_size: u64,
        alloc_align: u64,
        Ghost(k): Ghost<int>,
    ) -> (p: u64)
        requires
            old(self)@.wf(),
            0 <= k < old(self)@.nodes.len(),
            block == old(self)@.nodes[k],
            prev == if k > 0 {
                old(self)@.nodes[k - 1]
            } else {
                0
            },
            is_power_of_two(alloc_align),
            old(self)@.allocate_fits(k, alloc_size, alloc_align),
            old(self)@.size_of(block as int) >= total_size(alloc_size, alloc_align),
        ensures
            (final(self)@, p) == old(self)@.after_allocate(k, alloc_size, alloc_align),
    {
        let ghost m = self@;
        proof {
            assert(m.node_ok(k));
            if k > 0 {
                assert(m.node_ok(k - 1));
                assert(m.apart(k - 1, k));
                assert(m.apart(k, k - 1));
            }
            lemma_used_bytes(block, alloc_size, alloc_align);
        }
        let block_size = self.read_word(block);
        let user_start = block + BLOCK_HEADER_SIZE + BACK_POINTER_SIZE;
        let aligned_start = (user_start + alloc_align - 1) & !(alloc_align - 1);
        let used = aligned_start - block + alloc_size;
        let total_used = (used + 7) / 8 * 8;
        if block_size >= total_used + MIN_BLOCK_SIZE {
            let remainder_start = block + total_used;
            let remainder_size = block_size - total_used;
            self.write_word(remainder_start, remainder_size);
            let ghost m1 = self@;
            proof {
                lemma_write_frame(m, remainder_start as int, remainder_size);
            }
            let next = self.read_word(block + 8);
            self.write_word(remainder_start + 8, next);
            let ghost m2 = self@;
            proof {
                lemma_write_frame(m1, remainder_start + 8, next);
            }
            self.write_word(block, total_used);
            proof {
                lemma_write_frame(m2, block as int, total_used);
            }
            if prev != 0 {
                self.write_word(prev + 8, remainder_start);
            } else {
                self.free_list = remainder_start;
            }
            proof {
                self.nodes@ = m.nodes.update(k, remainder_start);
            }
        } else {
            let next = self.read_word(block + 8);
            if prev != 0 {
                self.write_word(prev + 8, next);
            } else {
                self.free_list = next;
            }
            proof {
                self.nodes@ = m.nodes.remove(k);
            }
        }
        proof {
            assert(self@ == m.carve(k, alloc_size, alloc_align));
        }
        self.write_word(aligned_start - BACK_POINTER_SIZE, block);
        aligned_start
    }
}

impl HeapModel {
    /// The block header that deallocation finds for `ptr`: the back pointer stored just below it.
    pub open spec fn block_header(self, ptr: u64) -> u64 {
        self.word(ptr - BACK_POINTER_SIZE)
    }

    /// The back pointer below `ptr` lies inside the heap.
    pub open spec fn back_pointer_in_heap(self, ptr: u64) -> bool {
        ptr >= BACK_POINTER_SIZE && self.word_in_heap(ptr - BACK_POINTER_SIZE)
    }

    /// The position at which a walk from the head, stopping at the first node not below `b`,
    /// inserts `b`.
    pub open spec fn insert_pos_from(self, b: u64, k: int) -> int
        decreases self.nodes.len() - k,
    {
        if k < 0 || k >= self.nodes.len() {
            self.nodes.len() as int
        } else if self.nodes[k] >= b {
            k
        } else {
            self.insert_pos_from(b, k + 1)
        }
    }

    pub open spec fn insert_pos(self, b: u64) -> int {
        self.insert_pos_from(b, 0)
    }

    /// The state after returning the block at `b` to the free list: it is linked in before the
    /// first node not below it (after the head when all are below), then merged with the node
    /// after it and with the node before it when they are adjacent.
    pub open spec fn after_insert(self, b: u64) -> Self {
        let m0 = self.with_word_at(b + 8, 0);
        if self.free_list == 0 {
            HeapModel { free_list: b, nodes: seq![b], ..m0 }
        } else {
            let k = self.insert_pos(b);
            let current = if k < self.nodes.len() {
                self.nodes[k]
            } else {
                0
            };
            let prev = if k > 0 {
                self.nodes[k - 1]
            } else {
                0
            };
            let m1 = m0.with_word_at(b + 8, current);
            let m2 = if prev != 0 {
                m1.with_word_at(prev + 8, b)
            } else {
                HeapModel { free_list: b, ..m1 }
            };
            let nodes2 = self.nodes.insert(k, b);
            let merge_next = current != 0 && b + m2.size_of(b as int) == current;
            let m3 = if merge_next {
                let ma = m2.with_word_at(b as int, (m2.size_of(b as int) + m2.size_of(current as int)) as u64);
                ma.with_word_at(b + 8, ma.next_of(current as int))
            } else {
                m2
            };
            let nodes3 = if merge_next {
                nodes2.remove(k + 1)
            } else {
                nodes2
            };
            let merge_prev = prev != 0 && prev + m3.size_of(prev as int) == b;
            if merge_prev {
                let ma = m3.with_word_at(prev as int, (m3.size_of(prev as int) + m3.size_of(b as int)) as u64);
                let mb = ma.with_word_at(prev + 8, ma.next_of(b as int));
                HeapModel { nodes: nodes3.remove(k), ..mb }
            } else {
                HeapModel { nodes: nodes3, ..m3 }
            }
        }
    }

    /// The block at `b` can join the free list without overlapping it: its header and link lie in
    /// the heap, it is at least a node long and ends inside the heap, and it neither starts inside
    /// a free block nor contains the start of one.
    pub open spec fn insert_ok(self, b: u64) -> bool {
        &&& b % 8 == 0
        &&& self.size_of(b as int) % 8 == 0
        &&& self.heap_start <= b
        &&& b + MIN_BLOCK_SIZE <= self.heap_current_end
        &&& MIN_BLOCK_SIZE <= self.size_of(b as int)
        &&& b + self.size_of(b as int) <= self.heap_current_end
        &&& forall|i: int| 0 <= i < self.nodes.len() ==> {
            &&& !(#[trigger] self.nodes[i] <= b < self.nodes[i] + self.size_of(self.nodes[i] as int))
            &&& !(b <= self.nodes[i] < b + self.size_of(b as int))
        }
    }

    /// The state after deallocating `ptr`.
    pub open spec fn after_dealloc(self, ptr: u64) -> Self {
        if ptr == 0 || self.block_header(ptr) == 0 {
            self
        } else {
            self.after_insert(self.block_header(ptr))
        }
    }

    /// Deallocating `ptr` reads only heap memory and, when it finds a block, returns that block
    /// to the free list without overlapping the free blocks.
    pub open spec fn dealloc_ok(self, ptr: u64) -> bool {
        ptr != 0 ==> {
            &&& self.back_pointer_in_heap(ptr)
            &&& self.block_header(ptr) != 0 ==> self.insert_ok(self.block_header(ptr))
        }
    }
}

impl LinkedListHeap {
    /// The header of the block that holds the allocation at `alloc_ptr`, read from the back
    /// pointer just below it.
    fn find_block_header(&self, alloc_ptr: u64) -> (r: u64)
        requires
            self@.bounds_wf(),
            self@.back_pointer_in_heap(alloc_ptr),
        ensures
            r == self@.block_header(alloc_ptr),
    {
        self.read_word(alloc_ptr - BACK_POINTER_SIZE)
    }
}

/// Writing the link of a block that overlaps no free block keeps the free list well formed, and
/// leaves the block fit to be inserted.
#[verifier::spinoff_prover]
proof fn lemma_clear_link(m: HeapModel, b: u64, v: u64)
    requires
        m.wf(),
        m.insert_ok(b),
    ensures
        m.with_word_at(b + 8, v).wf(),
        m.with_word_at(b + 8, v).insert_ok(b),
        m.with_word_at(b + 8, v).nodes == m.nodes,
        m.with_word_at(b + 8, v).size_of(b as int) == m.size_of(b as int),
        forall|i: int| 0 <= i < m.nodes.len() ==> {
            &&& #[trigger] m.with_word_at(b + 8, v).size_of(m.nodes[i] as int) == m.size_of(m.nodes[i] as int)
            &&& m.with_word_at(b + 8, v).next_of(m.nodes[i] as int) == m.next_of(m.nodes[i] as int)
        },
{
    let r = m.with_word_at(b + 8, v);
    lemma_write_frame(m, b + 8, v);
    assert forall|i: int| 0 <= i < m.nodes.len() implies {
        &&& #[trigger] r.size_of(m.nodes[i] as int) == m.size_of(m.nodes[i] as int)
        &&& r.next_of(m.nodes[i] as int) == m.next_of(m.nodes[i] as int)
    } by {
        assert(m.node_ok(i));
        let n = m.nodes[i];
        assert(!(n <= b < n + m.size_of(n as int)));
        assert(!(b <= n < b + m.size_of(b as int)));
        assert(r.word(n as int) == m.word(n as int));
        assert(r.word(n + 8) == m.word(n + 8));
    }
    assert forall|i: int| 0 <= i < r.nodes.len() implies #[trigger] r.node_ok(i) by {
        assert(m.node_ok(i));
        assert(r.size_of(m.nodes[i] as int) == m.size_of(m.nodes[i] as int));
    }
    assert forall|i: int, j: int|
        0 <= i < r.nodes.len() && 0 <= j < r.nodes.len() && i != j implies #[trigger] r.apart(i, j) by {
        assert(m.apart(i, j));
        assert(m.node_ok(i));
    }
}

impl LinkedListHeap {
    /// Returns the block at `block_ptr` to the free list, linking it in front of the first free
    /// block not below it and merging it with adjacent neighbours.
    #[verifier::spinoff_prover]
    fn insert_free_block(&mut self, block_ptr: u64)
        requires
            old(self)@.wf(),
            old(self)@.insert_ok(block_ptr),
        ensures
            final(self)@ == old(self)@.after_insert(block_ptr),
    {
        let ghost m = self@;
        proof {
            lemma_clear_link(m, block_ptr, 0);
        }
        self.write_word(block_ptr + 8, 0);
        let ghost m0 = self@;
        if self.free_list == 0 {
            self.free_list = block_ptr;
            proof {
                self.nodes@ = seq![block_ptr];
            }
            return;
        }
        let mut current = self.free_list;
        let mut prev: u64 = 0;
        let ghost mut k: int = 0;
        while current != 0 && current < block_ptr
            invariant
                m0 == self@,
                m0.wf(),
                m0.nodes == m.nodes,
                0 <= k <= m.nodes.len(),
                current == if k < m.nodes.len() { m.nodes[k] } else { 0 },
                prev == if k > 0 { m.nodes[k - 1] } else { 0 },
                k > 0 ==> prev < block_ptr,
                m.insert_pos(block_ptr) == m.insert_pos_from(block_ptr, k),
            decreases m.nodes.len() - k,
        {
            proof {
                if k >= m.nodes.len() {
                    assert(false);
                }
                assert(m0.node_ok(k));
            }
            prev = current;
            current = self.read_word(current + 8);
            proof {
                k = k + 1;
            }
        }
        proof {
            if k < m.nodes.len() {
                assert(m0.node_ok(k));
            }
            assert(m.insert_pos(block_ptr) == k);
            if k > 0 {
                assert(m0.node_ok(k - 1));
            }
        }
        self.write_word(block_ptr + 8, current);
        if prev != 0 {
            self.write_word(prev + 8, block_ptr);
        } else {
            self.free_list = block_ptr;
        }
        proof {
            lemma_write_frame(m0, block_ptr + 8, current);
            if prev != 0 {
                let m1 = m0.with_word_at(block_ptr + 8, current);
                lemma_write_frame(m1, prev + 8, block_ptr);
                assert(m0.insert_ok(block_ptr));
            }
        }
        let ghost m2 = self@;
        proof {
            let m1 = m0.with_word_at(block_ptr + 8, current);
            assert(m1.word(block_ptr as int) == m0.word(block_ptr as int));
            if current != 0 {
                assert(m.nodes[k] >= block_ptr);
                assert(m.node_ok(k));
                assert(m0.node_ok(k));
                assert(m1.word(current as int) == m0.word(current as int));
            }
            if prev != 0 {
                assert(m.node_ok(k - 1));
                assert(m.nodes[k - 1] < block_ptr);
                assert(m2 == m1.with_word_at(prev + 8, block_ptr));
                assert(m2.word(block_ptr as int) == m1.word(block_ptr as int));
                if current != 0 {
                    assert(m.apart(k - 1, k));
                    assert(m.apart(k, k - 1));
                    assert(m2.word(current as int) == m1.word(current as int));
                }
            }
            assert(m2.size_of(block_ptr as int) == m.size_of(block_ptr as int));
            if current != 0 {
                assert(m2.size_of(current as int) == m.size_of(current as int));
            }
        }
        if current != 0 && block_ptr + self.read_word(block_ptr) == current {
            assert(m0.node_ok(k));
            let size_b = self.read_word(block_ptr);
            let size_c = self.read_word(current);
            self.write_word(block_ptr, size_b + size_c);
            let ghost ma = self@;
            proof {
                lemma_write_frame(m2, block_ptr as int, (size_b + size_c) as u64);
            }
            let next_c = self.read_word(current + 8);
            self.write_word(block_ptr + 8, next_c);
            proof {
                lemma_write_frame(ma, block_ptr + 8, next_c);
            }
        }
        let ghost m3 = self@;
        if prev != 0 {
            let size_p = self.read_word(prev);
            if prev + size_p == block_ptr {
                let size_b = self.read_word(block_ptr);
                self.write_word(prev, size_p + size_b);
                let ghost ma = self@;
                proof {
                    lemma_write_frame(m3, prev as int, (size_p + size_b) as u64);
                }
                let next_b = self.read_word(block_ptr + 8);
                self.write_word(prev + 8, next_b);
                proof {
                    lemma_write_frame(ma, prev + 8, next_b);
                }
            }
        }
        proof {
            let nodes2 = m.nodes.insert(k, block_ptr);
            let merge_next = current != 0 && block_ptr + m2.size_of(block_ptr as int) == current;
            let nodes3 = if merge_next { nodes2.remove(k + 1) } else { nodes2 };
            let merge_prev = prev != 0 && prev + m3.size_of(prev as int) == block_ptr;
            self.nodes@ = if merge_prev { nodes3.remove(k) } else { nodes3 };
        }
    }
}

impl HeapModel {
    /// Node `j` absorbs node `j + 1`: its size grows by the next node's size, it takes over the
    /// next node's link, and the next node leaves the list.
    pub open spec fn merged(self, j: int) -> Self {
        let a = self.nodes[j];
        let c = self.nodes[j + 1];
        let m1 = self.with_word_at(a as int, (self.size_of(a as int) + self.size_of(c as int)) as u64);
        let m2 = m1.with_word_at(a + 8, m1.next_of(c as int));
        HeapModel { nodes: self.nodes.remove(j + 1), ..m2 }
    }
}

/// Merging a free block with the adjacent free block that follows it in the list keeps the list
/// well formed.
#[verifier::spinoff_prover]
proof fn lemma_merge_wf(x: HeapModel, j: int)
    requires
        x.wf(),
        0 <= j,
        j + 1 < x.nodes.len(),
        x.nodes[j] + x.size_of(x.nodes[j] as int) == x.nodes[j + 1],
    ensures
        x.merged(j).wf(),
        x.merged(j).size_of(x.nodes[j] as int) == x.size_of(x.nodes[j] as int) + x.size_of(x.nodes[j + 1] as int),
        x.merged(j).nodes == x.nodes.remove(j + 1),
        forall|i: int|
            0 <= i < x.nodes.len() && i != j && i != j + 1 ==> #[trigger] x.merged(j).size_of(x.nodes[i] as int)
                == x.size_of(x.nodes[i] as int),
{
    let a = x.nodes[j];
    let c = x.nodes[j + 1];
    assert(x.node_ok(j));
    assert(x.node_ok(j + 1));
    let sa = x.size_of(a as int);
    let sc = x.size_of(c as int);
    let m1 = x.with_word_at(a as int, (sa + sc) as u64);
    lemma_write_frame(x, a as int, (sa + sc) as u64);
    assert(m1.next_of(c as int) == x.next_of(c as int));
    let nc = m1.next_of(c as int);
    let m2 = m1.with_word_at(a + 8, nc);
    lemma_write_frame(m1, a + 8, nc);
    let r = x.merged(j);
    assert(r.memory == m2.memory);
    assert(r.nodes == x.nodes.remove(j + 1));
    assert(m2.word(a as int) == m1.word(a as int));
    assert(r.size_of(a as int) == sa + sc);
    assert(r.next_of(a as int) == x.successor(j + 1));
    assert forall|i: int| 0 <= i < x.nodes.len() && i != j && i != j + 1 implies {
        &&& #[trigger] r.size_of(x.nodes[i] as int) == x.size_of(x.nodes[i] as int)
        &&& r.next_of(x.nodes[i] as int) == x.next_of(x.nodes[i] as int)
        &&& !(a <= x.nodes[i] < a + sa + sc)
        &&& !(x.nodes[i] <= a < x.nodes[i] + x.size_of(x.nodes[i] as int))
    } by {
        assert(x.node_ok(i));
        assert(x.apart(i, j));
        assert(x.apart(j, i));
        assert(x.apart(i, j + 1));
        assert(x.apart(j + 1, i));
        assert(m1.word(x.nodes[i] as int) == x.word(x.nodes[i] as int));
        assert(m1.word(x.nodes[i] + 8) == x.word(x.nodes[i] + 8));
        assert(m2.word(x.nodes[i] as int) == m1.word(x.nodes[i] as int));
        assert(m2.word(x.nodes[i] + 8) == m1.word(x.nodes[i] + 8));
    }
    assert forall|i: int| 0 <= i < r.nodes.len() implies #[trigger] r.node_ok(i) by {
        let oi = if i <= j { i } else { i + 1 };
        assert(r.nodes[i] == x.nodes[oi]);
        assert(x.node_ok(oi));
        if i == j - 1 {
            assert(r.successor(i) == a);
        }
    }
    assert forall|i: int, l: int|
        0 <= i < r.nodes.len() && 0 <= l < r.nodes.len() && i != l implies #[trigger] r.apart(i, l) by {
        let oi = if i <= j { i } else { i + 1 };
        let ol = if l <= j { l } else { l + 1 };
        assert(r.nodes[i] == x.nodes[oi]);
        assert(r.nodes[l] == x.nodes[ol]);
        assert(x.apart(oi, ol));
        if oi != j {
            assert(r.size_of(x.nodes[oi] as int) == x.size_of(x.nodes[oi] as int));
        }
        if ol != j {
            assert(r.size_of(x.nodes[ol] as int) == x.size_of(x.nodes[ol] as int));
        }
    }
}

impl HeapModel {
    /// The state after linking `b` into a non-empty list at its insertion position, before any
    /// merging.
    pub open spec fn linked(self, b: u64) -> Self {
        let m0 = self.with_word_at(b + 8, 0);
        let k = self.insert_pos(b);
        let current = if k < self.nodes.len() {
            self.nodes[k]
        } else {
            0
        };
        let prev = if k > 0 {
            self.nodes[k - 1]
        } else {
            0
        };
        let m1 = m0.with_word_at(b + 8, current);
        let m2 = if prev != 0 {
            m1.with_word_at(prev + 8, b)
        } else {
            HeapModel { free_list: b, ..m1 }
        };
        HeapModel { nodes: self.nodes.insert(k, b), ..m2 }
    }
}

proof fn lemma_insert_pos(m: HeapModel, b: u64, k: int)
    requires
        0 <= k <= m.nodes.len(),
        forall|i: int| 0 <= i < k ==> m.nodes[i] < b,
    ensures
        k <= m.insert_pos_from(b, k) <= m.nodes.len(),
        m.insert_pos_from(b, k) < m.nodes.len() ==> m.nodes[m.insert_pos_from(b, k)] >= b,
        forall|i: int| 0 <= i < m.insert_pos_from(b, k) ==> m.nodes[i] < b,
    decreases m.nodes.len() - k,
{
    if k < m.nodes.len() && m.nodes[k] < b {
        lemma_insert_pos(m, b, k + 1);
    }
}

/// Linking a block that overlaps no free block into a non-empty list keeps the list well formed.
#[verifier::spinoff_prover]
proof fn lemma_link_wf(m: HeapModel, b: u64)
    requires
        m.wf(),
        m.insert_ok(b),
        m.free_list != 0,
    ensures
        m.linked(b).wf(),
        m.linked(b).nodes == m.nodes.insert(m.insert_pos(b), b),
        m.linked(b).size_of(b as int) == m.size_of(b as int),
        forall|i: int| 0 <= i < m.nodes.len() ==> #[trigger] m.linked(b).size_of(m.nodes[i] as int)
            == m.size_of(m.nodes[i] as int),
{
    let k = m.insert_pos(b);
    lemma_insert_pos(m, b, 0);
    lemma_clear_link(m, b, 0);
    let m0 = m.with_word_at(b + 8, 0);
    let current = if k < m.nodes.len() { m.nodes[k] } else { 0 };
    let prev = if k > 0 { m.nodes[k - 1] } else { 0 };
    lemma_clear_link(m0, b, current);
    lemma_write_frame(m0, b + 8, current);
    let m1 = m0.with_word_at(b + 8, current);
    if prev != 0 {
        assert(m.node_ok(k - 1));
        lemma_write_frame(m1, prev + 8, b);
        assert(m.linked(b).memory == m1.with_word_at(prev + 8, b).memory);
    } else {
        assert(m.linked(b).memory == m1.memory);
    }
    let r = m.linked(b);
    let nodes2 = m.nodes.insert(k, b);
    assert(r.nodes == nodes2);
    assert(m.nodes.len() > 0);
    if prev != 0 {
        assert(m.nodes[k - 1] < b);
        assert(m.node_ok(k - 1));
        assert(!(m.nodes[k - 1] <= b < m.nodes[k - 1] + m.size_of(m.nodes[k - 1] as int)));
        let m2 = m1.with_word_at(prev + 8, b);
        assert(m2.word(b as int) == m1.word(b as int));
        assert(m2.word(b + 8) == m1.word(b + 8));
        assert(r.word(b as int) == m1.word(b as int));
        assert(r.word(b + 8) == m1.word(b + 8));
    }
    assert(r.size_of(b as int) == m.size_of(b as int));
    assert(r.next_of(b as int) == current);
    assert forall|i: int| 0 <= i < m.nodes.len() implies {
        &&& #[trigger] r.size_of(m.nodes[i] as int) == m.size_of(m.nodes[i] as int)
        &&& r.next_of(m.nodes[i] as int) == if i == k - 1 {
            b
        } else {
            m.next_of(m.nodes[i] as int)
        }
    } by {
        assert(m.node_ok(i));
        let n = m.nodes[i];
        assert(m1.word(n as int) == m.word(n as int));
        assert(m1.word(n + 8) == m.word(n + 8));
        if prev != 0 {
            if i != k - 1 {
                assert(m.apart(i, k - 1));
                assert(m.apart(k - 1, i));
            }
            let m2 = m1.with_word_at(prev + 8, b);
            assert(m2.word(n as int) == m1.word(n as int));
            assert(r.word(n as int) == m1.word(n as int));
            if i != k - 1 {
                assert(m2.word(n + 8) == m1.word(n + 8));
                assert(r.word(n + 8) == m1.word(n + 8));
            }
        }
    }
    assert forall|i: int| 0 <= i < r.nodes.len() implies #[trigger] r.node_ok(i) by {
        if i < k {
            assert(r.nodes[i] == m.nodes[i]);
            assert(m.node_ok(i));
        } else if i > k {
            assert(r.nodes[i] == m.nodes[i - 1]);
            assert(m.node_ok(i - 1));
        }
    }
    assert forall|i: int, l: int|
        0 <= i < r.nodes.len() && 0 <= l < r.nodes.len() && i != l implies #[trigger] r.apart(i, l) by {
        let oi = if i < k { i } else { i - 1 };
        let ol = if l < k { l } else { l - 1 };
        if i != k {
            assert(r.nodes[i] == m.nodes[oi]);
            assert(r.size_of(m.nodes[oi] as int) == m.size_of(m.nodes[oi] as int));
        }
        if l != k {
            assert(r.nodes[l] == m.nodes[ol]);
        }
        if i != k && l != k {
            assert(m.apart(oi, ol));
        }
    }
    if k == 0 {
        assert(r.free_list == b);
    } else {
        assert(m.node_ok(k - 1));
        assert(prev != 0);
        assert(r.free_list == m.free_list);
    }
}

/// Returning a block that overlaps no free block to the free list keeps the list well formed.
#[verifier::spinoff_prover]
pub proof fn lemma_insert_keeps_wf(m: HeapModel, b: u64)
    requires
        m.wf(),
        m.insert_ok(b),
    ensures
        m.after_insert(b).wf(),
{
    if m.free_list == 0 {
        lemma_clear_link(m, b, 0);
        lemma_write_frame(m, b + 8, 0);
        let r = m.after_insert(b);
        if m.nodes.len() > 0 {
            assert(m.node_ok(0));
        }
        assert(m.nodes.len() == 0);
        assert(r.node_ok(0));
    } else {
        lemma_link_wf(m, b);
        let k = m.insert_pos(b);
        let l = m.linked(b);
        lemma_insert_pos(m, b, 0);
        let current = if k < m.nodes.len() { m.nodes[k] } else { 0 };
        let prev = if k > 0 { m.nodes[k - 1] } else { 0 };
        let merge_next = current != 0 && b + l.size_of(b as int) == current;
        let m3 = if merge_next { l.merged(k) } else { l };
        if merge_next {
            assert(l.nodes[k] == b);
            assert(l.nodes[k + 1] == current);
            lemma_merge_wf(l, k);
        }
        if prev != 0 {
            assert(m.node_ok(k - 1));
        }
        let merge_prev = prev != 0 && prev + m3.size_of(prev as int) == b;
        if merge_prev {
            assert(m3.nodes[k - 1] == prev);
            assert(m3.nodes[k] == b);
            lemma_merge_wf(m3, k - 1);
        }
        assert(m.after_insert(b) == if merge_prev { m3.merged(k - 1) } else { m3 });
    }
}

impl HeapModel {
    /// The free blocks are in strictly increasing address order.
    pub open spec fn sorted(self) -> bool {
        forall|i: int, j: int| 0 <= i < j < self.nodes.len() ==> #[trigger] self.nodes[i] < #[trigger] self.nodes[j]
    }

    /// Free block `i` ends before free block `i + 1` begins.
    pub open spec fn gap(self, i: int) -> bool {
        self.nodes[i] + self.size_of(self.nodes[i] as int) < self.nodes[i + 1]
    }

    /// The free list is sorted by address and no free block ends where the next one begins.
    pub open spec fn tidy(self) -> bool {
        &&& self.sorted()
        &&& forall|i: int| 0 <= i && i + 1 < self.nodes.len() ==> #[trigger] self.gap(i)
    }

    /// Whether address `a` lies in free block `i`.
    pub open spec fn in_block(self, i: int, a: int) -> bool {
        self.nodes[i] <= a < self.nodes[i] + self.size_of(self.nodes[i] as int)
    }

    /// The addresses that the free blocks cover.
    pub open spec fn free_bytes(self) -> Set<int> {
        Set::new(|a: int| exists|i: int| 0 <= i < self.nodes.len() && #[trigger] self.in_block(i, a))
    }
}

/// The addresses of the block at `b` with size `n`.
pub open spec fn block_bytes(b: u64, n: u64) -> Set<int> {
    Set::new(|a: int| b <= a < b + n)
}

/// Merging free blocks `j` and `j + 1` keeps the list sorted and the free bytes, and the gaps
/// after it are those of the unmerged list, shifted past the merged pair.
proof fn lemma_merge_tidy(x: HeapModel, j: int)
    requires
        x.wf(),
        x.sorted(),
        0 <= j,
        j + 1 < x.nodes.len(),
        x.nodes[j] + x.size_of(x.nodes[j] as int) == x.nodes[j + 1],
    ensures
        x.merged(j).sorted(),
        x.merged(j).free_bytes() == x.free_bytes(),
        forall|i: int| 0 <= i < j ==> #[trigger] x.merged(j).gap(i) == x.gap(i),
        forall|i: int| j <= i && i + 1 < x.merged(j).nodes.len() ==> #[trigger] x.merged(j).gap(i) == x.gap(i + 1),
{
    lemma_merge_wf(x, j);
    let r = x.merged(j);
    assert forall|i: int, l: int| 0 <= i < l < r.nodes.len() implies #[trigger] r.nodes[i] < #[trigger] r.nodes[l] by {
        let oi = if i <= j { i } else { i + 1 };
        let ol = if l <= j { l } else { l + 1 };
        assert(x.nodes[oi] < x.nodes[ol]);
    }
    assert forall|i: int| 0 <= i < j implies #[trigger] r.gap(i) == x.gap(i) by {
        assert(r.nodes[i] == x.nodes[i]);
        assert(r.nodes[i + 1] == x.nodes[i + 1]);
    }
    assert forall|i: int| j <= i && i + 1 < r.nodes.len() implies #[trigger] r.gap(i) == x.gap(i + 1) by {
        assert(r.nodes[i + 1] == x.nodes[i + 2]);
        if i > j {
            assert(r.nodes[i] == x.nodes[i + 1]);
        }
    }
    assert forall|a: int| #[trigger] r.free_bytes().contains(a) <==> x.free_bytes().contains(a) by {
        if r.free_bytes().contains(a) {
            let i = choose|i: int| 0 <= i < r.nodes.len() && #[trigger] r.in_block(i, a);
            let oi = if i <= j { i } else { i + 1 };
            if i == j {
                if a < x.nodes[j + 1] {
                    assert(x.in_block(j, a));
                } else {
                    assert(x.in_block(j + 1, a));
                }
            } else {
                assert(x.in_block(oi, a));
            }
        }
        if x.free_bytes().contains(a) {
            let i = choose|i: int| 0 <= i < x.nodes.len() && #[trigger] x.in_block(i, a);
            if i == j || i == j + 1 {
                assert(r.in_block(j, a));
            } else {
                let ri = if i < j { i } else { i - 1 };
                assert(r.nodes[ri] == x.nodes[i]);
                assert(r.in_block(ri, a));
            }
        }
    }
    assert(r.free_bytes() =~= x.free_bytes());
}

/// Returning a block to a tidy free list keeps it tidy, sorted by address and with no two free
/// blocks touching, and the free blocks then cover exactly the bytes they covered before together
/// with the returned block.
#[verifier::spinoff_prover]
#[verifier::rlimit(40)]
pub proof fn lemma_insert_keeps_tidy(m: HeapModel, b: u64)
    requires
        m.wf(),
        m.tidy(),
        m.insert_ok(b),
    ensures
        m.after_insert(b).tidy(),
        m.after_insert(b).free_bytes() == m.free_bytes().union(block_bytes(b, m.size_of(b as int))),
{
    let sb = m.size_of(b as int);
    lemma_insert_keeps_wf(m, b);
    if m.free_list == 0 {
        lemma_clear_link(m, b, 0);
        let r = m.after_insert(b);
        if m.nodes.len() > 0 {
            assert(m.node_ok(0));
        }
        assert(r.nodes == seq![b]);
        assert(r.size_of(b as int) == sb);
        assert(m.free_bytes() =~= Set::<int>::empty());
        assert forall|a: int| #[trigger] r.free_bytes().contains(a) <==> block_bytes(b, sb).contains(a) by {
            if block_bytes(b, sb).contains(a) {
                assert(r.in_block(0, a));
            }
        }
        assert(r.free_bytes() =~= m.free_bytes().union(block_bytes(b, sb)));
    } else {
        lemma_link_wf(m, b);
        let k = m.insert_pos(b);
        let l = m.linked(b);
        lemma_insert_pos(m, b, 0);
        assert(l.nodes[k] == b);
        // The linked list: sorted, with its gaps except around `b`.
        assert forall|i: int| 0 <= i < m.nodes.len() implies #[trigger] m.nodes[i] != b by {
            assert(m.node_ok(i));
        }
        assert forall|i: int, j: int| 0 <= i < j < l.nodes.len() implies #[trigger] l.nodes[i] < #[trigger] l.nodes[j] by {
            let oi = if i < k { i } else { i - 1 };
            let oj = if j < k { j } else { j - 1 };
            if i != k && j != k {
                assert(m.nodes[oi] < m.nodes[oj]);
            } else if i == k {
                assert(m.nodes[k] >= b);
                if oj > k {
                    assert(m.nodes[k] < m.nodes[oj]);
                }
            } else {
                assert(m.nodes[oi] < b);
            }
        }
        assert forall|i: int| 0 <= i && i + 1 < l.nodes.len() && i != k - 1 && i != k implies #[trigger] l.gap(i) by {
            if i < k - 1 {
                assert(m.gap(i));
            } else {
                assert(l.nodes[i] == m.nodes[i - 1]);
                assert(l.nodes[i + 1] == m.nodes[i]);
                assert(m.gap(i - 1));
            }
        }
        assert forall|a: int| #[trigger] l.free_bytes().contains(a) <==> m.free_bytes().union(block_bytes(b, sb)).contains(a) by {
            if l.free_bytes().contains(a) {
                let i = choose|i: int| 0 <= i < l.nodes.len() && #[trigger] l.in_block(i, a);
                if i < k {
                    assert(m.in_block(i, a));
                } else if i > k {
                    assert(m.in_block(i - 1, a));
                }
            }
            if m.free_bytes().contains(a) {
                let i = choose|i: int| 0 <= i < m.nodes.len() && #[trigger] m.in_block(i, a);
                if i < k {
                    assert(l.in_block(i, a));
                } else {
                    assert(l.in_block(i + 1, a));
                }
            }
            if block_bytes(b, sb).contains(a) {
                assert(l.in_block(k, a));
            }
        }
        assert(l.free_bytes() =~= m.free_bytes().union(block_bytes(b, sb)));
        let current = if k < m.nodes.len() { m.nodes[k] } else { 0 };
        let prev = if k > 0 { m.nodes[k - 1] } else { 0 };
        let merge_next = current != 0 && b + l.size_of(b as int) == current;
        if k < m.nodes.len() {
            assert(m.node_ok(k));
            assert(current > b);
        }
        if k > 0 {
            assert(m.node_ok(k - 1));
            assert(!(prev <= b < prev + m.size_of(prev as int)));
        }
        let m3 = if merge_next { l.merged(k) } else { l };
        if merge_next {
            assert(l.nodes[k + 1] == current);
            lemma_merge_tidy(l, k);
            lemma_merge_wf(l, k);
        }
        // The list after the merge with the next block: gaps everywhere except before `b`.
        assert forall|i: int| 0 <= i && i + 1 < m3.nodes.len() && i != k - 1 implies #[trigger] m3.gap(i) by {
            if merge_next {
                if i >= k {
                    assert(l.gap(i + 1));
                } else {
                    assert(l.gap(i));
                }
            } else if i == k {
                assert(l.nodes[k + 1] == current);
            }
        }
        assert(m3.nodes[k] == b);
        if k > 0 {
            assert(m3.nodes[k - 1] == prev);
            if merge_next {
                assert(m3.size_of(prev as int) == l.size_of(prev as int));
            }
        }
        let merge_prev = prev != 0 && prev + m3.size_of(prev as int) == b;
        assert(m.after_insert(b) == if merge_prev { m3.merged(k - 1) } else { m3 });
        if merge_prev {
            lemma_merge_wf(m3, k - 1);
            lemma_merge_tidy(m3, k - 1);
            let r = m3.merged(k - 1);
            assert forall|i: int| 0 <= i && i + 1 < r.nodes.len() implies #[trigger] r.gap(i) by {
                if i >= k - 1 {
                    assert(m3.gap(i + 1));
                } else {
                    assert(m3.gap(i));
                }
            }
        } else {
            if k > 0 {
                assert(m3.gap(k - 1));
            }
        }
    }
}

#[verifier::spinoff_prover]
#[verifier::rlimit(40)]
proof fn lemma_split_keeps_tidy(m: HeapModel, k: int, size: u64, align: u64)
    requires
        m.wf(),
        m.tidy(),
        0 <= k < m.nodes.len(),
        is_power_of_two(align),
        total_size(size, align) <= u64::MAX,
        m.size_of(m.nodes[k] as int) >= total_size(size, align),
        m.splits(k, size, align),
    ensures
        ({
            let (h, p) = m.after_allocate(k, size, align);
            let b = m.nodes[k];
            &&& h.tidy()
            &&& h.free_bytes() == m.free_bytes().difference(block_bytes(b, h.size_of(b as int)))
        }),
{
    lemma_allocate_facts(m, k, size, align);
    let b = m.nodes[k];
    let bs = m.size_of(b as int);
    assert(m.node_ok(k));
    let (h, p) = m.after_allocate(k, size, align);
    let c = m.carve(k, size, align);
    let hs = h.size_of(b as int);
    lemma_used_bytes(b, size, align);
    assert forall|i: int| 0 <= i < m.nodes.len() && i != k implies !(b <= #[trigger] m.nodes[i] < b + bs) && !(
    m.nodes[i] <= b < m.nodes[i] + m.size_of(m.nodes[i] as int)) by {
        assert(m.apart(k, i));
        assert(m.apart(i, k));
    }
        lemma_split_rem(m, k, size, align);
        let rem = h.nodes[k];
        assert(h.nodes == m.nodes.update(k, rem));
        assert(rem == b + hs);
        assert(h.size_of(rem as int) == bs - hs);
        assert forall|i: int, j: int| 0 <= i < j < h.nodes.len() implies #[trigger] h.nodes[i] < #[trigger] h.nodes[j] by {
            assert(m.nodes[i] < m.nodes[j]);
            if j == k {
                assert(m.nodes[i] < b);
            }
            if i == k {
                assert(!(b <= m.nodes[j] < b + bs));
            }
        }
        assert forall|i: int| 0 <= i && i + 1 < h.nodes.len() implies #[trigger] h.gap(i) by {
            assert(m.gap(i));
        }
        assert forall|a: int| #[trigger] h.free_bytes().contains(a) <==> m.free_bytes().difference(
            block_bytes(b, hs),
        ).contains(a) by {
            if h.free_bytes().contains(a) {
                let i = choose|i: int| 0 <= i < h.nodes.len() && #[trigger] h.in_block(i, a);
                assert(m.in_block(i, a));
                if i != k {
                    assert(!(b <= a < b + hs));
                }
            }
            if m.free_bytes().difference(block_bytes(b, hs)).contains(a) {
                let i = choose|i: int| 0 <= i < m.nodes.len() && #[trigger] m.in_block(i, a);
                assert(h.in_block(i, a));
            }
        }
        assert(h.free_bytes() =~= m.free_bytes().difference(block_bytes(b, hs)));
}

#[verifier::spinoff_prover]
#[verifier::rlimit(40)]
proof fn lemma_unlink_keeps_tidy(m: HeapModel, k: int, size: u64, align: u64)
    requires
        m.wf(),
        m.tidy(),
        0 <= k < m.nodes.len(),
        is_power_of_two(align),
        total_size(size, align) <= u64::MAX,
        m.size_of(m.nodes[k] as int) >= total_size(size, align),
        !m.splits(k, size, align),
    ensures
        ({
            let (h, p) = m.after_allocate(k, size, align);
            let b = m.nodes[k];
            &&& h.tidy()
            &&& h.free_bytes() == m.free_bytes().difference(block_bytes(b, h.size_of(b as int)))
        }),
{
    lemma_allocate_facts(m, k, size, align);
    let b = m.nodes[k];
    let bs = m.size_of(b as int);
    assert(m.node_ok(k));
    let (h, p) = m.after_allocate(k, size, align);
    let c = m.carve(k, size, align);
    let hs = h.size_of(b as int);
    lemma_used_bytes(b, size, align);
    assert forall|i: int| 0 <= i < m.nodes.len() && i != k implies !(b <= #[trigger] m.nodes[i] < b + bs) && !(
    m.nodes[i] <= b < m.nodes[i] + m.size_of(m.nodes[i] as int)) by {
        assert(m.apart(k, i));
        assert(m.apart(i, k));
    }
        lemma_allocate_unlink_wf(m, k, size, align);
        assert(h.nodes == m.nodes.remove(k));
        assert(hs == bs);
        assert forall|i: int, j: int| 0 <= i < j < h.nodes.len() implies #[trigger] h.nodes[i] < #[trigger] h.nodes[j] by {
            let oi = if i < k { i } else { i + 1 };
            let oj = if j < k { j } else { j + 1 };
            assert(m.nodes[oi] < m.nodes[oj]);
        }
        assert forall|i: int| 0 <= i && i + 1 < h.nodes.len() implies #[trigger] h.gap(i) by {
            if i + 1 < k {
                assert(m.gap(i));
            } else if i >= k {
                assert(m.gap(i + 1));
            } else {
                assert(m.gap(i));
                assert(m.gap(i + 1));
                assert(m.nodes[i] < m.nodes[i + 1]);
            }
        }
        assert forall|a: int| #[trigger] h.free_bytes().contains(a) <==> m.free_bytes().difference(
            block_bytes(b, hs),
        ).contains(a) by {
            if h.free_bytes().contains(a) {
                let i = choose|i: int| 0 <= i < h.nodes.len() && #[trigger] h.in_block(i, a);
                let oi = if i < k { i } else { i + 1 };
                assert(m.in_block(oi, a));
            }
            if m.free_bytes().difference(block_bytes(b, hs)).contains(a) {
                let i = choose|i: int| 0 <= i < m.nodes.len() && #[trigger] m.in_block(i, a);
                let hi = if i < k { i } else { i - 1 };
                assert(h.in_block(hi, a));
            }
        }
        assert(h.free_bytes() =~= m.free_bytes().difference(block_bytes(b, hs)));
}

/// An allocation from node `k` of a tidy list keeps it tidy, and the free blocks then cover
/// exactly what they covered before without the allocated block.
#[verifier::spinoff_prover]
#[verifier::rlimit(40)]
pub proof fn lemma_allocate_keeps_tidy(m: HeapModel, k: int, size: u64, align: u64)
    requires
        m.wf(),
        m.tidy(),
        0 <= k < m.nodes.len(),
        is_power_of_two(align),
        total_size(size, align) <= u64::MAX,
        m.size_of(m.nodes[k] as int) >= total_size(size, align),
    ensures
        ({
            let (h, p) = m.after_allocate(k, size, align);
            let b = m.nodes[k];
            &&& h.tidy()
            &&& h.free_bytes() == m.free_bytes().difference(block_bytes(b, h.size_of(b as int)))
        }),
{
    if m.splits(k, size, align) {
        lemma_split_keeps_tidy(m, k, size, align);
    } else {
        lemma_unlink_keeps_tidy(m, k, size, align);
    }
}

/// Freeing what an allocation from the first block that fits handed out gives the free list back
/// its bytes: a tidy list stays tidy, and its free blocks cover exactly the bytes they covered
/// before the allocation.
pub proof fn lemma_allocate_then_dealloc_restores(m: HeapModel, size: u64, align: u64, k: int)
    requires
        m.wf(),
        m.tidy(),
        is_power_of_two(align),
        total_size(size, align) <= u64::MAX,
        m.first_fit(total_size(size, align) as u64) == Some(k),
    ensures
        ({
            let (h, p) = m.after_allocate(k, size, align);
            &&& h.after_dealloc(p).tidy()
            &&& h.after_dealloc(p).free_bytes() == m.free_bytes()
        }),
{
    let total = total_size(size, align) as u64;
    lemma_first_fit(m, total, 0);
    lemma_allocate_then_dealloc(m, size, align, k);
    lemma_allocate_keeps_tidy(m, k, size, align);
    lemma_allocate_facts(m, k, size, align);
    let b = m.nodes[k];
    let (h, p) = m.after_allocate(k, size, align);
    let hs = h.size_of(b as int);
    lemma_insert_keeps_tidy(h, b);
    assert(m.node_ok(k));
    let bb = block_bytes(b, hs);
    assert forall|a: int| #[trigger] bb.contains(a) implies m.free_bytes().contains(a) by {
        assert(m.in_block(k, a));
    }
    assert(m.free_bytes().difference(bb).union(bb) =~= m.free_bytes());
}

/// Freeing what an allocation from the first block that fits handed out gives back the very free
/// list of a tidy heap: the same blocks, at the same addresses, in the same order, with the same
/// sizes.
#[verifier::spinoff_prover]
#[verifier::rlimit(40)]
pub proof fn lemma_allocate_then_dealloc_same_list(m: HeapModel, size: u64, align: u64, k: int)
    requires
        m.wf(),
        m.tidy(),
        is_power_of_two(align),
        total_size(size, align) <= u64::MAX,
        m.first_fit(total_size(size, align) as u64) == Some(k),
    ensures
        ({
            let (h, p) = m.after_allocate(k, size, align);
            let r = h.after_dealloc(p);
            &&& r.nodes == m.nodes
            &&& forall|i: int| 0 <= i < m.nodes.len() ==> #[trigger] r.size_of(r.nodes[i] as int) == m.size_of(
                m.nodes[i] as int,
            )
        }),
{
    let total = total_size(size, align) as u64;
    lemma_first_fit(m, total, 0);
    lemma_allocate_then_dealloc(m, size, align, k);
    lemma_allocate_facts(m, k, size, align);
    lemma_allocate_keeps_tidy(m, k, size, align);
    let b = m.nodes[k];
    let bs = m.size_of(b as int);
    let (h, p) = m.after_allocate(k, size, align);
    let hs = h.size_of(b as int);
    assert(m.node_ok(k));
    assert(h.after_dealloc(p) == h.after_insert(b));
    if h.free_list == 0 {
        assert(h.nodes.len() == 0) by {
            if h.nodes.len() > 0 {
                assert(h.node_ok(0));
            }
        }
        assert(!m.splits(k, size, align));
        assert(m.nodes.len() == 1);
        lemma_clear_link(h, b, 0);
        let r = h.after_insert(b);
        assert(r.nodes =~= m.nodes);
    } else {
        lemma_link_wf(h, b);
        lemma_insert_pos(h, b, 0);
        let pos = h.insert_pos(b);
        assert forall|i: int| 0 <= i < k implies #[trigger] h.nodes[i] < b by {
            assert(m.nodes[i] < m.nodes[k]);
        }
        if k < h.nodes.len() {
            if m.splits(k, size, align) {
                assert(h.nodes[k] > b);
            } else {
                assert(h.nodes[k] == m.nodes[k + 1]);
                assert(m.nodes[k] < m.nodes[k + 1]);
            }
        }
        if pos < k {
            assert(h.nodes[pos] < b);
        }
        if pos > k {
            assert(h.nodes[k] < b);
        }
        assert(pos == k);
        let l = h.linked(b);
        assert(l.nodes == h.nodes.insert(k, b));
        let current = if k < h.nodes.len() { h.nodes[k] } else { 0 };
        let prev = if k > 0 { h.nodes[k - 1] } else { 0 };
        if k > 0 {
            assert(prev == m.nodes[k - 1]);
            assert(m.gap(k - 1));
            assert(h.size_of(prev as int) == m.size_of(prev as int));
            assert(l.size_of(prev as int) == m.size_of(prev as int));
            assert(m.node_ok(k - 1));
        }
        if m.splits(k, size, align) {
            let rem = h.nodes[k];
            assert(current == rem);
            assert(b + l.size_of(b as int) == current);
            assert(l.nodes[k + 1] == rem);
            lemma_merge_wf(l, k);
            let m3 = l.merged(k);
            assert(m3.nodes =~= m.nodes);
            assert(m3.size_of(b as int) == bs);
            if k > 0 {
                assert(m3.size_of(prev as int) == l.size_of(prev as int));
            }
            assert(h.after_insert(b) == m3);
            assert forall|i: int| 0 <= i < m.nodes.len() implies #[trigger] m3.size_of(m3.nodes[i] as int)
                == m.size_of(m.nodes[i] as int) by {
                if i != k {
                    let li = if i < k { i } else { i + 1 };
                    assert(l.nodes[li] == m.nodes[i]);
                    assert(h.size_of(m.nodes[i] as int) == m.size_of(m.nodes[i] as int));
                }
            }
        } else {
            if k < h.nodes.len() {
                assert(m.gap(k));
                assert(current == m.nodes[k + 1]);
            }
            assert(l.nodes =~= m.nodes);
            assert(h.after_insert(b) == l);
            assert forall|i: int| 0 <= i < m.nodes.len() implies #[trigger] l.size_of(l.nodes[i] as int)
                == m.size_of(m.nodes[i] as int) by {
                if i != k {
                    let hi = if i < k { i } else { i - 1 };
                    assert(h.nodes[hi] == m.nodes[i]);
                    assert(h.size_of(m.nodes[i] as int) == m.size_of(m.nodes[i] as int));
                }
            }
        }
    }
}

impl LinkedListHeap {
    /// Frees the allocation at `ptr`: reads its block header's address from the back pointer
    /// just below `ptr` and returns the block to the free list. A null pointer, or a null back
    /// pointer, is ignored.
    pub fn dealloc(&mut self, ptr: u64)
        requires
            old(self)@.wf(),
            old(self)@.dealloc_ok(ptr),
        ensures
            final(self)@ == old(self)@.after_dealloc(ptr),
            final(self)@.wf(),
            old(self)@.tidy() ==> final(self)@.tidy(),
            old(self)@.tidy() && ptr != 0 && old(self)@.block_header(ptr) != 0 ==> final(self)@.free_bytes()
                == old(self)@.free_bytes().union(
                block_bytes(old(self)@.block_header(ptr), old(self)@.size_of(old(self)@.block_header(ptr) as int)),
            ),
    {
        if ptr == 0 {
            return;
        }
        let block_ptr = self.find_block_header(ptr);
        if block_ptr == 0 {
            return;
        }
        proof {
            lemma_insert_keeps_wf(self@, block_ptr);
            if self@.tidy() {
                lemma_insert_keeps_tidy(self@, block_ptr);
            }
        }
        self.insert_free_block(block_ptr);
    }
}

/// Flags of the entries that map heap pages.
pub open spec fn heap_page_flags() -> u64 {
    PageTableEntry::PRESENT | PageTableEntry::WRITABLE
}

/// Maps the page at `virt` to a frame taken from the allocator; the state, and whether a frame
/// was found and the mapping made.
pub open spec fn heap_page_step(s: PagingState, hhdm_offset: u64, pml4: u64, virt: u64) -> (PagingState, bool) {
    match s.frames.alloc_result() {
        None => (s, false),
        Some(phys) => {
            let s2 = PagingState { frames: s.frames.after_alloc(), ..s };
            let (s3, r) = map_outcome(s2, hhdm_offset, pml4, virt, phys, heap_page_flags());
            (s3, r is Ok)
        },
    }
}

/// The tables that mapping the page at `virt` after taking a frame reads exist.
pub open spec fn heap_page_step_valid(s: PagingState, hhdm_offset: u64, pml4: u64, virt: u64) -> bool {
    match s.frames.alloc_result() {
        None => true,
        Some(phys) => map_reads_valid(
            PagingState { frames: s.frames.after_alloc(), ..s },
            hhdm_offset,
            pml4,
            virt,
        ),
    }
}

/// Maps `n` pages from `virt0` upward, each to a frame taken from the allocator, stopping at the
/// first failure; the state, and whether every page was mapped.
pub open spec fn map_heap_pages(s: PagingState, hhdm_offset: u64, pml4: u64, virt0: u64, n: nat) -> (PagingState, bool)
    decreases n,
{
    if n == 0 {
        (s, true)
    } else {
        let (s1, ok) = map_heap_pages(s, hhdm_offset, pml4, virt0, (n - 1) as nat);
        if !ok {
            (s1, false)
        } else {
            heap_page_step(s1, hhdm_offset, pml4, (virt0 + (n - 1) * PAGE_SIZE) as u64)
        }
    }
}

/// Every `map_page` call that mapping `n` heap pages makes reads only existing tables.
pub open spec fn map_heap_pages_valid(s: PagingState, hhdm_offset: u64, pml4: u64, virt0: u64, n: nat) -> bool
    decreases n,
{
    n == 0 || {
        &&& map_heap_pages_valid(s, hhdm_offset, pml4, virt0, (n - 1) as nat)
        &&& {
            let (s1, ok) = map_heap_pages(s, hhdm_offset, pml4, virt0, (n - 1) as nat);
            ok ==> heap_page_step_valid(s1, hhdm_offset, pml4, (virt0 + (n - 1) * PAGE_SIZE) as u64)
        }
    }
}

/// Page `i` of the run of pages that starts at `virt0`.
pub open spec fn heap_page(virt0: u64, i: int) -> u64 {
    (virt0 + i * PAGE_SIZE) as u64
}

/// The page at `virt` is mapped, by a last-level entry that has both the present and the
/// writable bit.
pub open spec fn mapped_writable(mem: Map<u64, Seq<u64>>, hhdm_offset: u64, pml4: u64, virt: u64) -> bool {
    &&& crate::arch::x86_64::paging::translate(mem, hhdm_offset, pml4, virt) is Some
    &&& crate::arch::x86_64::paging::translate(mem, hhdm_offset, pml4, virt)->Some_0 & (PageTableEntry::PRESENT
        | PageTableEntry::WRITABLE) == PageTableEntry::PRESENT | PageTableEntry::WRITABLE
}

/// The physical address that the page at `virt` is mapped to.
pub open spec fn page_frame(mem: Map<u64, Seq<u64>>, hhdm_offset: u64, pml4: u64, virt: u64) -> u64 {
    crate::arch::x86_64::paging::entry_addr(crate::arch::x86_64::paging::translate(mem, hhdm_offset, pml4, virt)->Some_0)
}

/// Mapping `n` heap pages from `virt0`, when every page maps, leaves each of them mapped present
/// and writable to its own frame: a frame that was free before and is taken afterwards, and
/// different for different pages. The allocator only loses free frames, and the tables stay out
/// of free frames.
#[verifier::spinoff_prover]
#[verifier::rlimit(40)]
pub proof fn lemma_heap_pages_writable(s0: PagingState, hhdm_offset: u64, pml4: u64, virt0: u64, n: nat)
    requires
        s0.frames.wf(),
        hhdm_fits(hhdm_offset),
        tables_sized(s0.mem),
        crate::arch::x86_64::paging::tables_not_free(s0, hhdm_offset),
        map_heap_pages_valid(s0, hhdm_offset, pml4, virt0, n),
        map_heap_pages(s0, hhdm_offset, pml4, virt0, n).1,
    ensures
        ({
            let s = map_heap_pages(s0, hhdm_offset, pml4, virt0, n).0;
            &&& s.frames.wf()
            &&& tables_sized(s.mem)
            &&& crate::arch::x86_64::paging::tables_not_free(s, hhdm_offset)
            &&& s.frames.free_set().subset_of(s0.frames.free_set())
            &&& forall|i: int|
                0 <= i < n ==> crate::arch::x86_64::paging::walk_valid(
                    s.mem,
                    hhdm_offset,
                    pml4,
                    #[trigger] heap_page(virt0, i),
                )
            &&& forall|i: int| 0 <= i < n ==> mapped_writable(s.mem, hhdm_offset, pml4, #[trigger] heap_page(virt0, i))
            &&& forall|i: int|
                0 <= i < n ==> {
                    let f = crate::memory::allocator::frame_index(page_frame(s.mem, hhdm_offset, pml4, #[trigger] heap_page(virt0, i)));
                    &&& s0.frames.free_set().contains(f)
                    &&& !s.frames.free_set().contains(f)
                }
            &&& forall|i: int, j: int|
                0 <= i < j < n ==> page_frame(s.mem, hhdm_offset, pml4, #[trigger] heap_page(virt0, i)) != page_frame(
                    s.mem,
                    hhdm_offset,
                    pml4,
                    #[trigger] heap_page(virt0, j),
                )
        }),
    decreases n,
{
    if n > 0 {
        let m1 = (n - 1) as nat;
        lemma_heap_pages_writable(s0, hhdm_offset, pml4, virt0, m1);
        let s1 = map_heap_pages(s0, hhdm_offset, pml4, virt0, m1).0;
        let v = heap_page(virt0, m1 as int);
        let phys = s1.frames.alloc_result()->Some_0;
        crate::memory::allocator::lemma_alloc_takes_free_frame(s1.frames);
        let s2 = PagingState { frames: s1.frames.after_alloc(), ..s1 };
        let flags = PageTableEntry::PRESENT | PageTableEntry::WRITABLE;
        assert(heap_page_flags() == flags);
        crate::arch::x86_64::paging::lemma_reads_valid_walk(s2, hhdm_offset, pml4, v);
        crate::arch::x86_64::paging::lemma_map_then_translate(s2, hhdm_offset, pml4, v, phys, flags);
        crate::arch::x86_64::paging::lemma_map_frames_shrink(s2, hhdm_offset, pml4, v, phys, flags);
        crate::arch::x86_64::paging::lemma_frame_entry(phys);
        assert((phys | 3u64) & 3u64 == 3u64) by (bit_vector);
        assert(0x1u64 | 0x2u64 == 0x3u64) by (bit_vector);
        let s = map_heap_pages(s0, hhdm_offset, pml4, virt0, n).0;
        assert(s == map_outcome(s2, hhdm_offset, pml4, v, phys, flags).0);
        assert(crate::arch::x86_64::paging::translate(s.mem, hhdm_offset, pml4, v) == Some(phys | flags));
        assert(page_frame(s.mem, hhdm_offset, pml4, v) == phys);
        let fp = crate::memory::allocator::frame_index(phys);
        assert forall|i: int| 0 <= i < m1 implies {
            &&& crate::arch::x86_64::paging::translate(s.mem, hhdm_offset, pml4, #[trigger] heap_page(virt0, i))
                == crate::arch::x86_64::paging::translate(s1.mem, hhdm_offset, pml4, heap_page(virt0, i))
            &&& crate::arch::x86_64::paging::walk_valid(s.mem, hhdm_offset, pml4, heap_page(virt0, i))
        } by {
            assert(mapped_writable(s1.mem, hhdm_offset, pml4, heap_page(virt0, i)));
            assert(crate::arch::x86_64::paging::walk_valid(s1.mem, hhdm_offset, pml4, heap_page(virt0, i)));
            crate::arch::x86_64::paging::lemma_map_keeps_other_translations(
                s2,
                hhdm_offset,
                pml4,
                v,
                phys,
                flags,
                heap_page(virt0, i),
            );
        }
        assert forall|i: int| 0 <= i < n implies mapped_writable(s.mem, hhdm_offset, pml4, #[trigger] heap_page(virt0, i)) by {
            if i < m1 {
                assert(mapped_writable(s1.mem, hhdm_offset, pml4, heap_page(virt0, i)));
            }
        }
        assert forall|i: int| 0 <= i < n implies {
            let f = crate::memory::allocator::frame_index(page_frame(s.mem, hhdm_offset, pml4, #[trigger] heap_page(virt0, i)));
            &&& s0.frames.free_set().contains(f)
            &&& !s.frames.free_set().contains(f)
        } by {
            if i < m1 {
                assert(page_frame(s.mem, hhdm_offset, pml4, heap_page(virt0, i)) == page_frame(s1.mem, hhdm_offset, pml4, heap_page(virt0, i)));
            }
        }
        assert forall|i: int, j: int| 0 <= i < j < n implies page_frame(s.mem, hhdm_offset, pml4, #[trigger] heap_page(virt0, i))
            != page_frame(s.mem, hhdm_offset, pml4, #[trigger] heap_page(virt0, j)) by {
            assert(page_frame(s.mem, hhdm_offset, pml4, heap_page(virt0, i)) == page_frame(s1.mem, hhdm_offset, pml4, heap_page(virt0, i)));
            if j < m1 {
                assert(page_frame(s.mem, hhdm_offset, pml4, heap_page(virt0, j)) == page_frame(s1.mem, hhdm_offset, pml4, heap_page(virt0, j)));
            } else {
                assert(j == m1);
                assert(s1.frames.free_set().contains(fp));
                assert(!s1.frames.free_set().contains(crate::memory::allocator::frame_index(page_frame(s1.mem, hhdm_offset, pml4, heap_page(virt0, i)))));
            }
        }
        assert forall|i: int| 0 <= i < n implies crate::arch::x86_64::paging::walk_valid(
            s.mem,
            hhdm_offset,
            pml4,
            #[trigger] heap_page(virt0, i),
        ) by {
        }
    }
}

/// Once a page fails, mapping more pages changes nothing.
proof fn lemma_pages_fail_stays(s: PagingState, hhdm_offset: u64, pml4: u64, virt0: u64, i: nat, n: nat)
    requires
        i <= n,
        map_heap_pages(s, hhdm_offset, pml4, virt0, i).1 == false,
    ensures
        map_heap_pages(s, hhdm_offset, pml4, virt0, n) == map_heap_pages(s, hhdm_offset, pml4, virt0, i),
    decreases n,
{
    if i < n {
        lemma_pages_fail_stays(s, hhdm_offset, pml4, virt0, i, (n - 1) as nat);
    }
}

fn map_heap_page(
    tables: &mut PageTableMemory,
    frames: &mut FrameAllocator,
    hhdm_offset: u64,
    pml4: u64,
    virt: u64,
) -> (ok: bool)
    requires
        old(frames)@.wf(),
        hhdm_fits(hhdm_offset),
        heap_page_step_valid(PagingState { mem: old(tables)@, frames: old(frames)@ }, hhdm_offset, pml4, virt),
    ensures
        final(frames)@.wf(),
        (PagingState { mem: final(tables)@, frames: final(frames)@ }, ok) == heap_page_step(
            PagingState { mem: old(tables)@, frames: old(frames)@ },
            hhdm_offset,
            pml4,
            virt,
        ),
{
    let phys = match frames.alloc_frame() {
        Some(p) => p,
        None => {
            return false;
        },
    };
    proof {
        crate::memory::allocator::lemma_alloc_takes_free_frame(old(frames)@);
    }
    map_page(tables, frames, hhdm_offset, pml4, virt, phys, PageTableEntry::PRESENT | PageTableEntry::WRITABLE).is_ok()
}

/// Pages needed to hold `needed_size` bytes.
pub open spec fn pages_for(needed_size: u64) -> int {
    (needed_size + PAGE_SIZE - 1) / PAGE_SIZE as int
}

impl HeapModel {
    /// Pages the heap spans.
    pub open spec fn current_pages(self) -> int {
        (self.heap_current_end - self.heap_start) / PAGE_SIZE as int
    }

    /// Growing by `needed_size` stays within the heap's page limit.
    pub open spec fn grow_allowed(self, needed_size: u64) -> bool {
        self.current_pages() + pages_for(needed_size) <= HEAP_MAX_PAGES
    }

    /// The heap with its end moved up by `n` zero-filled pages and a block header of their size at
    /// the old end.
    pub open spec fn extended(self, n: int) -> Self {
        let old_end = self.heap_current_end;
        let bytes = n * PAGE_SIZE;
        HeapModel {
            memory: self.memory + Seq::new(bytes as nat, |i: int| 0u8),
            heap_current_end: (old_end + bytes) as u64,
            ..self
        }.with_word_at(old_end as int, bytes as u64)
    }

    /// The heap after its end moved up by `n` zero-filled pages that joined the free list as one
    /// block: in address order, after every free block, merged with a free block that ends at the
    /// old end.
    pub open spec fn grown(self, n: int) -> Self {
        self.extended(n).after_insert(self.heap_current_end)
    }

    /// The heap, the page tables with the allocator, and the result of growing by `needed_size`.
    pub open spec fn grow_outcome(self, s: PagingState, hhdm_offset: u64, pml4: u64, needed_size: u64) -> (Self, PagingState, bool) {
        let n = pages_for(needed_size);
        if !self.grow_allowed(needed_size) {
            (self, s, false)
        } else {
            let (s1, ok) = map_heap_pages(s, hhdm_offset, pml4, self.heap_current_end, n as nat);
            if ok {
                (self.grown(n), s1, true)
            } else {
                (self, s1, false)
            }
        }
    }
}

/// A heap that grows keeps its free list well formed.
#[verifier::spinoff_prover]
proof fn lemma_grown_wf(m: HeapModel, n: int)
    requires
        m.wf(),
        n >= 1,
        m.heap_current_end + n * PAGE_SIZE <= m.heap_max_end,
    ensures
        m.extended(n).wf(),
        m.extended(n).insert_ok(m.heap_current_end),
        m.grown(n).wf(),
        m.extended(n).nodes == m.nodes,
        forall|i: int| 0 <= i < m.nodes.len() ==> #[trigger] m.extended(n).size_of(m.nodes[i] as int) == m.size_of(
            m.nodes[i] as int,
        ),
{
    let old_end = m.heap_current_end;
    let bytes = n * PAGE_SIZE;
    let extended = HeapModel {
        memory: m.memory + Seq::new(bytes as nat, |i: int| 0u8),
        heap_current_end: (old_end + bytes) as u64,
        ..m
    };
    assert(extended.bounds_wf());
    assert forall|o: int| m.word_in_heap(o) implies #[trigger] extended.word(o) == m.word(o) by {
        reveal(word_at);
        let off = o - m.heap_start;
        assert(extended.memory.subrange(0, m.memory.len() as int) =~= m.memory);
        assert(extended.memory[off] == m.memory[off]);
        assert(extended.memory[off + 1] == m.memory[off + 1]);
        assert(extended.memory[off + 2] == m.memory[off + 2]);
        assert(extended.memory[off + 3] == m.memory[off + 3]);
        assert(extended.memory[off + 4] == m.memory[off + 4]);
        assert(extended.memory[off + 5] == m.memory[off + 5]);
        assert(extended.memory[off + 6] == m.memory[off + 6]);
        assert(extended.memory[off + 7] == m.memory[off + 7]);
    }
    let x = m.extended(n);
    lemma_write_frame(extended, old_end as int, bytes as u64);
    assert(x == extended.with_word_at(old_end as int, bytes as u64));
    assert(bytes >= PAGE_SIZE);
    assert(x.size_of(old_end as int) == bytes);
    assert forall|i: int| 0 <= i < m.nodes.len() implies {
        &&& #[trigger] x.size_of(m.nodes[i] as int) == m.size_of(m.nodes[i] as int)
        &&& x.next_of(m.nodes[i] as int) == m.next_of(m.nodes[i] as int)
    } by {
        assert(m.node_ok(i));
        let a = m.nodes[i];
        assert(extended.word(a as int) == m.word(a as int));
        assert(extended.word(a + 8) == m.word(a + 8));
    }
    assert forall|i: int| 0 <= i < x.nodes.len() implies #[trigger] x.node_ok(i) by {
        assert(m.node_ok(i));
    }
    assert forall|i: int, l: int|
        0 <= i < x.nodes.len() && 0 <= l < x.nodes.len() && i != l implies #[trigger] x.apart(i, l) by {
        assert(m.apart(i, l));
        assert(m.node_ok(i));
    }
    assert(x.wf());
    assert forall|i: int| 0 <= i < x.nodes.len() implies {
        &&& !(#[trigger] x.nodes[i] <= old_end < x.nodes[i] + x.size_of(x.nodes[i] as int))
        &&& !(old_end <= x.nodes[i] < old_end + x.size_of(old_end as int))
    } by {
        assert(m.node_ok(i));
    }
    assert((m.heap_current_end - m.heap_start) % 4096 == 0);
    assert(old_end % 8 == 0) by {
        assert(m.bounds_wf());
    }
    assert(bytes % 8 == 0);
    assert(x.insert_ok(old_end));
    lemma_insert_keeps_wf(x, old_end);
}

/// Growing a tidy heap keeps it tidy.
proof fn lemma_grown_keeps_tidy(m: HeapModel, n: int)
    requires
        m.wf(),
        m.tidy(),
        n >= 1,
        m.heap_current_end + n * PAGE_SIZE <= m.heap_max_end,
    ensures
        m.grown(n).tidy(),
{
    lemma_grown_wf(m, n);
    let x = m.extended(n);
    assert forall|i: int| 0 <= i && i + 1 < x.nodes.len() implies #[trigger] x.gap(i) by {
        assert(m.gap(i));
    }
    assert forall|i: int, j: int| 0 <= i < j < x.nodes.len() implies #[trigger] x.nodes[i] < #[trigger] x.nodes[j] by {
        assert(m.nodes[i] < m.nodes[j]);
    }
    lemma_insert_keeps_tidy(x, m.heap_current_end);
}

impl LinkedListHeap {
    /// Grows the heap by enough pages for `needed_size` bytes: each page gets a frame from
    /// `frames` and is mapped writable through the tables rooted at `pml4`; the new pages become
    /// one free block, returned to the list in address order (after every free block, merged with
    /// one that ends at the old end). Fails when the heap would pass its page limit, or
    /// when a frame or a mapping cannot be had (pages mapped before the failure stay mapped).
    #[verifier::spinoff_prover]
    fn grow_heap(
        &mut self,
        needed_size: u64,
        tables: &mut PageTableMemory,
        frames: &mut FrameAllocator,
        hhdm_offset: u64,
        pml4: u64,
    ) -> (r: Result<(), ()>)
        requires
            old(self)@.wf(),
            needed_size > 0,
            needed_size + PAGE_SIZE <= u64::MAX,
            old(frames)@.wf(),
            hhdm_fits(hhdm_offset),
            old(self)@.grow_allowed(needed_size) ==> map_heap_pages_valid(
                PagingState { mem: old(tables)@, frames: old(frames)@ },
                hhdm_offset,
                pml4,
                old(self)@.heap_current_end,
                pages_for(needed_size) as nat,
            ),
        ensures
            final(frames)@.wf(),
            final(self)@.wf(),
            old(self)@.tidy() ==> final(self)@.tidy(),
            ({
                let (h, s, ok) = old(self)@.grow_outcome(
                    PagingState { mem: old(tables)@, frames: old(frames)@ },
                    hhdm_offset,
                    pml4,
                    needed_size,
                );
                &&& final(self)@ == h
                &&& final(tables)@ == s.mem
                &&& final(frames)@ == s.frames
                &&& (r is Ok) == ok
            }),
    {
        let ghost s0 = PagingState { mem: tables@, frames: frames@ };
        let current_pages = (self.heap_current_end - self.heap_start) / PAGE_SIZE;
        let needed_pages = (needed_size + PAGE_SIZE - 1) / PAGE_SIZE;
        if current_pages + needed_pages > HEAP_MAX_PAGES {
            return Err(());
        }
        let mut i: u64 = 0;
        while i < needed_pages
            invariant
                self@ == old(self)@,
                self@.wf(),
                s0 == (PagingState { mem: old(tables)@, frames: old(frames)@ }),
                needed_pages == pages_for(needed_size),
                current_pages == self@.current_pages(),
                current_pages + needed_pages <= HEAP_MAX_PAGES,
                hhdm_fits(hhdm_offset),
                i <= needed_pages,
                frames@.wf(),
                map_heap_pages_valid(s0, hhdm_offset, pml4, self@.heap_current_end, needed_pages as nat),
                map_heap_pages(s0, hhdm_offset, pml4, self@.heap_current_end, i as nat) == (
                PagingState { mem: tables@, frames: frames@ }, true),
            decreases needed_pages - i,
        {
            proof {
                lemma_pages_valid_prefix(s0, hhdm_offset, pml4, self@.heap_current_end, needed_pages as nat, (i + 1) as nat);
            }
            let virt = self.heap_current_end + i * PAGE_SIZE;
            if !map_heap_page(tables, frames, hhdm_offset, pml4, virt) {
                proof {
                    lemma_pages_fail_stays(s0, hhdm_offset, pml4, self@.heap_current_end, (i + 1) as nat, needed_pages as nat);
                }
                return Err(());
            }
            i = i + 1;
        }
        let ghost before = self@;
        let bytes = needed_pages * PAGE_SIZE;
        let mut j: u64 = 0;
        while j < bytes
            invariant
                self@ == (HeapModel { memory: before.memory + Seq::new(j as nat, |x: int| 0u8), ..before }),
                j <= bytes,
                bytes == needed_pages * PAGE_SIZE,
            decreases bytes - j,
        {
            self.memory.push(0);
            j = j + 1;
            assert(self@.memory =~= before.memory + Seq::new(j as nat, |x: int| 0u8));
        }
        let old_end = self.heap_current_end;
        self.heap_current_end = old_end + bytes;
        self.write_word(old_end, bytes);
        proof {
            lemma_grown_wf(before, needed_pages as int);
            if before.tidy() {
                lemma_grown_keeps_tidy(before, needed_pages as int);
            }
            assert(self@ == before.extended(needed_pages as int));
        }
        self.insert_free_block(old_end);
        Ok(())
    }
}

proof fn lemma_pages_valid_prefix(s: PagingState, hhdm_offset: u64, pml4: u64, virt0: u64, n: nat, i: nat)
    requires
        map_heap_pages_valid(s, hhdm_offset, pml4, virt0, n),
        i <= n,
    ensures
        map_heap_pages_valid(s, hhdm_offset, pml4, virt0, i),
    decreases n,
{
    if i < n {
        lemma_pages_valid_prefix(s, hhdm_offset, pml4, virt0, (n - 1) as nat, i);
    }
}

impl HeapModel {
    /// The heap, the page tables with the allocator, and the address handed out by an allocation
    /// of `size` bytes aligned to `align`: first fit over the free list; when nothing fits, the
    /// heap grows by enough pages and the search runs again; 0 when the heap cannot grow.
    pub open spec fn alloc_outcome(
        self,
        s: PagingState,
        hhdm_offset: u64,
        pml4: u64,
        size: u64,
        align: u64,
    ) -> (Self, PagingState, u64) {
        let total = total_size(size, align) as u64;
        match self.first_fit(total) {
            Some(k) => {
                let (h, p) = self.after_allocate(k, size, align);
                (h, s, p)
            },
            None => {
                let (g, s1, ok) = self.grow_outcome(s, hhdm_offset, pml4, total);
                if ok {
                    match g.first_fit(total) {
                        Some(k) => {
                            let (h, p) = g.after_allocate(k, size, align);
                            (h, s1, p)
                        },
                        None => (g, s1, 0),
                    }
                } else {
                    (self, s1, 0)
                }
            },
        }
    }

    /// An allocation of `size` bytes aligned to `align` keeps its arithmetic within `u64` and reads
    /// only existing page tables when it grows the heap.
    pub open spec fn alloc_ok(self, s: PagingState, hhdm_offset: u64, pml4: u64, size: u64, align: u64) -> bool {
        let total = total_size(size, align) as u64;
        &&& total_size(size, align) <= u64::MAX
        &&& self.first_fit(total) is None ==> {
            &&& total + PAGE_SIZE <= u64::MAX
            &&& self.grow_allowed(total) ==> map_heap_pages_valid(
                s,
                hhdm_offset,
                pml4,
                self.heap_current_end,
                pages_for(total) as nat,
            )
        }
    }
}

proof fn lemma_first_fit(m: HeapModel, total: u64, k: int)
    requires
        0 <= k <= m.nodes.len(),
    ensures
        match m.first_fit_from(total, k) {
            Some(j) => k <= j < m.nodes.len() && m.size_of(m.nodes[j] as int) >= total,
            None => true,
        },
    decreases m.nodes.len() - k,
{
    if k < m.nodes.len() && m.size_of(m.nodes[k] as int) < total {
        lemma_first_fit(m, total, k + 1);
    }
}

impl LinkedListHeap {
    /// Allocates `alloc_size` bytes aligned to `alloc_align` (a power of two) by first fit,
    /// growing the heap through `tables` and `frames` when no free block fits. Returns the
    /// address, or 0 when the heap cannot grow.
    #[verifier::spinoff_prover]
    #[verifier::rlimit(60)]
    pub fn allocate(
        &mut self,
        alloc_size: u64,
        alloc_align: u64,
        tables: &mut PageTableMemory,
        frames: &mut FrameAllocator,
        hhdm_offset: u64,
        pml4: u64,
    ) -> (p: u64)
        requires
            old(self)@.wf(),
            is_power_of_two(alloc_align),
            old(frames)@.wf(),
            hhdm_fits(hhdm_offset),
            old(self)@.alloc_ok(
                PagingState { mem: old(tables)@, frames: old(frames)@ },
                hhdm_offset,
                pml4,
                alloc_size,
                alloc_align,
            ),
        ensures
            final(self)@.wf(),
            final(frames)@.wf(),
            old(self)@.tidy() ==> final(self)@.tidy(),
            ({
                let (h, s, r) = old(self)@.alloc_outcome(
                    PagingState { mem: old(tables)@, frames: old(frames)@ },
                    hhdm_offset,
                    pml4,
                    alloc_size,
                    alloc_align,
                );
                &&& final(self)@ == h
                &&& final(tables)@ == s.mem
                &&& final(frames)@ == s.frames
                &&& p == r
            }),
        crate::arch::x86_64::paging::tables_not_free(
            PagingState { mem: old(tables)@, frames: old(frames)@ },
            hhdm_offset,
        ) ==> forall|i: int|
            0 <= i && old(self)@.heap_current_end + i * PAGE_SIZE < final(self)@.heap_current_end ==> {
                &&& mapped_writable(final(tables)@, hhdm_offset, pml4, #[trigger] heap_page(old(self)@.heap_current_end, i))
                &&& old(frames)@.free_set().contains(
                    crate::memory::allocator::frame_index(
                        page_frame(final(tables)@, hhdm_offset, pml4, heap_page(old(self)@.heap_current_end, i)),
                    ),
                )
            },
    {
        proof {
            tables.lemma_sized();
        }
        let worst = BLOCK_HEADER_SIZE + BACK_POINTER_SIZE + alloc_size + (alloc_align - 1);
        let total_size = (worst + 7) / 8 * 8;
        let ghost m = self@;
        proof {
            lemma_first_fit(m, total_size, 0);
        }
        match self.find_fit(total_size) {
            Some((block, prev, k)) => {
                proof {
                    lemma_allocate_facts(m, k@, alloc_size, alloc_align);
                    if m.tidy() {
                        lemma_allocate_keeps_tidy(m, k@, alloc_size, alloc_align);
                    }
                }
                return self.allocate_from_block(block, prev, alloc_size, alloc_align, k);
            },
            None => {},
        }
        let ghost s0 = PagingState { mem: tables@, frames: frames@ };
        if self.grow_heap(total_size, tables, frames, hhdm_offset, pml4).is_ok() {
            let ghost g = self@;
            proof {
                lemma_first_fit(g, total_size, 0);
                let n = pages_for(total_size);
                lemma_pages_cover(total_size);
                lemma_grown_wf(m, n);
                assert(g == m.grown(n));
                assert(g.heap_current_end == m.heap_current_end + n * PAGE_SIZE);
                if crate::arch::x86_64::paging::tables_not_free(s0, hhdm_offset) {
                    lemma_heap_pages_writable(s0, hhdm_offset, pml4, m.heap_current_end, n as nat);
                }
            }
            match self.find_fit(total_size) {
                Some((block, prev, k)) => {
                    proof {
                        lemma_allocate_facts(g, k@, alloc_size, alloc_align);
                        if g.tidy() {
                            lemma_allocate_keeps_tidy(g, k@, alloc_size, alloc_align);
                        }
                    }
                    return self.allocate_from_block(block, prev, alloc_size, alloc_align, k);
                },
                None => {
                    return 0;
                },
            }
        }
        0
    }
}

/// Enough pages for `t` bytes hold at least `t` bytes.
proof fn lemma_pages_cover(t: u64)
    requires
        t + PAGE_SIZE <= u64::MAX,
    ensures
        pages_for(t) * PAGE_SIZE >= t,
        t > 0 ==> pages_for(t) >= 1,
{
    assert(((t + 4095) / 4096) * 4096 >= t) by (nonlinear_arith);
    assert(t > 0 ==> (t + 4095) / 4096 >= 1) by (nonlinear_arith);
}

/// Rounding up to a power of two clears the bits below it.
proof fn lemma_round_up_aligned(x: u64, align: u64)
    requires
        is_power_of_two(align),
        x + align - 1 <= u64::MAX,
    ensures
        round_up(x, align) & ((align - 1) as u64) == 0,
{
    let y = (x + align - 1) as u64;
    let a1 = (align - 1) as u64;
    assert((y & !a1) & a1 == 0) by (bit_vector);
}

/// When some free block from node `k` on has at least `total` bytes, the first-fit search from
/// `k` finds one.
proof fn lemma_first_fit_found(m: HeapModel, total: u64, k: int, j: int)
    requires
        0 <= k <= j < m.nodes.len(),
        m.size_of(m.nodes[j] as int) >= total,
    ensures
        m.first_fit_from(total, k) is Some,
    decreases j - k,
{
    if m.size_of(m.nodes[k] as int) < total {
        lemma_first_fit_found(m, total, k + 1, j);
    }
}

/// After growing by `n` pages the heap has a free block of at least `n` pages: the new block, or
/// the free block at the old end that it joined.
proof fn lemma_grown_has_room(m: HeapModel, n: int)
    requires
        m.wf(),
        n >= 1,
        m.heap_current_end + n * PAGE_SIZE <= m.heap_max_end,
    ensures
        exists|j: int|
            0 <= j < m.grown(n).nodes.len() && #[trigger] m.grown(n).size_of(m.grown(n).nodes[j] as int) >= n
                * PAGE_SIZE,
{
    lemma_grown_wf(m, n);
    let x = m.extended(n);
    let b = m.heap_current_end;
    let g = m.grown(n);
    let bytes = n * PAGE_SIZE;
    lemma_write_frame(
        HeapModel {
            memory: m.memory + Seq::new(bytes as nat, |i: int| 0u8),
            heap_current_end: (b + bytes) as u64,
            ..m
        },
        b as int,
        bytes as u64,
    );
    assert(x.size_of(b as int) == bytes);
    if x.free_list == 0 {
        lemma_clear_link(x, b, 0);
        assert(g.nodes[0] == b);
        assert(g.size_of(g.nodes[0] as int) >= bytes);
    } else {
        lemma_link_wf(x, b);
        lemma_insert_pos(x, b, 0);
        let k = x.insert_pos(b);
        if k < x.nodes.len() {
            assert(x.node_ok(k));
            assert(m.node_ok(k));
        }
        assert(k == x.nodes.len());
        let l = x.linked(b);
        assert(l.nodes[k] == b);
        let prev = x.nodes[k - 1];
        assert(x.node_ok(k - 1));
        assert(l.nodes[k - 1] == prev);
        let merge_prev = prev != 0 && prev + l.size_of(prev as int) == b;
        assert(g == if merge_prev { l.merged(k - 1) } else { l });
        if merge_prev {
            lemma_merge_wf(l, k - 1);
            assert(g.nodes[k - 1] == prev);
            assert(g.size_of(g.nodes[k - 1] as int) >= bytes);
        } else {
            assert(g.size_of(g.nodes[k] as int) >= bytes);
        }
    }
}

/// An allocation hands out 0 exactly when no free block fits it and growing the heap fails; after
/// a successful growth the allocation succeeds.
pub proof fn lemma_allocation_fails_only_without_room(
    m: HeapModel,
    s: PagingState,
    hhdm_offset: u64,
    pml4: u64,
    size: u64,
    align: u64,
)
    requires
        m.wf(),
        is_power_of_two(align),
        m.alloc_ok(s, hhdm_offset, pml4, size, align),
    ensures
        ({
            let total = total_size(size, align) as u64;
            let (h, s1, p) = m.alloc_outcome(s, hhdm_offset, pml4, size, align);
            (p == 0) <==> (m.first_fit(total) is None && !m.grow_outcome(s, hhdm_offset, pml4, total).2)
        }),
{
    let total = total_size(size, align) as u64;
    lemma_first_fit(m, total, 0);
    lemma_round_up8(BLOCK_HEADER_SIZE + BACK_POINTER_SIZE + size + (align - 1));
    match m.first_fit(total) {
        Some(k) => {
            lemma_allocate_facts(m, k, size, align);
        },
        None => {
            let (g, s1, ok) = m.grow_outcome(s, hhdm_offset, pml4, total);
            if ok {
                lemma_pages_cover(total);
                lemma_grown_wf(m, pages_for(total));
                lemma_grown_has_room(m, pages_for(total));
                let j = choose|j: int|
                    0 <= j < g.nodes.len() && #[trigger] g.size_of(g.nodes[j] as int) >= pages_for(total) * PAGE_SIZE;
                lemma_first_fit_found(g, total, 0, j);
                lemma_first_fit(g, total, 0);
                let k = g.first_fit(total)->Some_0;
                lemma_allocate_facts(g, k, size, align);
            }
        },
    }
}

/// The address an allocation hands out, when it is not 0, is aligned to `align` (its bits below
/// `align` are clear), lies past a block header inside the heap, leaves room for `size` bytes
/// before the heap's end, and the object overlaps no block that is still free.
pub proof fn lemma_allocation_in_heap(
    m: HeapModel,
    s: PagingState,
    hhdm_offset: u64,
    pml4: u64,
    size: u64,
    align: u64,
)
    requires
        m.wf(),
        is_power_of_two(align),
        m.alloc_ok(s, hhdm_offset, pml4, size, align),
    ensures
        ({
            let (h, s1, p) = m.alloc_outcome(s, hhdm_offset, pml4, size, align);
            p != 0 ==> {
                &&& p & ((align - 1) as u64) == 0
                &&& h.heap_start + BLOCK_HEADER_SIZE <= p
                &&& p + size <= h.heap_current_end
                &&& forall|i: int|
                    0 <= i < h.nodes.len() ==> #[trigger] h.nodes[i] + h.size_of(h.nodes[i] as int) <= p
                        || p + size <= h.nodes[i]
            }
        }),
{
    let total = total_size(size, align) as u64;
    lemma_first_fit(m, total, 0);
    match m.first_fit(total) {
        Some(k) => {
            lemma_allocate_facts(m, k, size, align);
        },
        None => {
            let (g, s1, ok) = m.grow_outcome(s, hhdm_offset, pml4, total);
            if ok {
                lemma_pages_cover(total);
                lemma_grown_wf(m, pages_for(total));
                lemma_first_fit(g, total, 0);
                match g.first_fit(total) {
                    Some(k) => {
                        lemma_allocate_facts(g, k, size, align);
                    },
                    None => {},
                }
            }
        },
    }
}

/// Why the heap could not be set up.
#[derive(Debug, PartialEq, Eq, Structural)]
pub enum HeapInitError {
    /// No physical frame was left for a heap page.
    OutOfFrames,
    /// The heap page at this virtual address could not be mapped.
    MapFailed(u64),
}

/// Why mapping the initial heap pages from state `s0` fails with `e`: page `i` is the first whose
/// mapping fails, for want of a frame or because `map_page` refused it.
pub open spec fn heap_init_failure(s0: PagingState, hhdm_offset: u64, pml4: u64, e: HeapInitError) -> bool {
    match e {
        HeapInitError::OutOfFrames => exists|i: nat|
            i < HEAP_INITIAL_PAGES && #[trigger] map_heap_pages(s0, hhdm_offset, pml4, HEAP_START, i).1
                && map_heap_pages(s0, hhdm_offset, pml4, HEAP_START, i).0.frames.alloc_result() is None,
        HeapInitError::MapFailed(virt) => exists|i: nat|
            i < HEAP_INITIAL_PAGES && #[trigger] map_heap_pages(s0, hhdm_offset, pml4, HEAP_START, i).1
                && map_heap_pages(s0, hhdm_offset, pml4, HEAP_START, i).0.frames.alloc_result() is Some
                && virt == HEAP_START + i * PAGE_SIZE,
    }
}

/// Sets up the kernel heap: maps `HEAP_INITIAL_PAGES` pages from `HEAP_START`, each to a frame
/// taken from `frames`, through the tables rooted at `pml4`, and makes them one free block.
/// Stops at the first page that gets no frame or cannot be mapped, and returns that failure as
/// an error (which page, and why) instead of stopping the machine; the caller decides to halt.
#[verifier::spinoff_prover]
pub fn init(
    tables: &mut PageTableMemory,
    frames: &mut FrameAllocator,
    hhdm_offset: u64,
    pml4: u64,
) -> (r: Result<LinkedListHeap, HeapInitError>)
    requires
        old(frames)@.wf(),
        hhdm_fits(hhdm_offset),
        map_heap_pages_valid(
            PagingState { mem: old(tables)@, frames: old(frames)@ },
            hhdm_offset,
            pml4,
            HEAP_START,
            HEAP_INITIAL_PAGES as nat,
        ),
    ensures
        final(frames)@.wf(),
        ({
            let s0 = PagingState { mem: old(tables)@, frames: old(frames)@ };
            let (s, ok) = map_heap_pages(s0, hhdm_offset, pml4, HEAP_START, HEAP_INITIAL_PAGES as nat);
            &&& final(tables)@ == s.mem
            &&& final(frames)@ == s.frames
            &&& (r is Ok) == ok
            &&& match r {
                Ok(h) => {
                    &&& h@ == empty_heap(HEAP_START).grown(HEAP_INITIAL_PAGES as int)
                    &&& h@.wf()
                    &&& h@.tidy()
                },
                Err(e) => heap_init_failure(s0, hhdm_offset, pml4, e),
            }
        }),
        r is Ok && crate::arch::x86_64::paging::tables_not_free(
            PagingState { mem: old(tables)@, frames: old(frames)@ },
            hhdm_offset,
        ) ==> {
            &&& forall|i: int|
                0 <= i < HEAP_INITIAL_PAGES ==> mapped_writable(
                    final(tables)@,
                    hhdm_offset,
                    pml4,
                    #[trigger] heap_page(HEAP_START, i),
                )
            &&& forall|i: int|
                0 <= i < HEAP_INITIAL_PAGES ==> old(frames)@.free_set().contains(
                    crate::memory::allocator::frame_index(
                        page_frame(final(tables)@, hhdm_offset, pml4, #[trigger] heap_page(HEAP_START, i)),
                    ),
                )
            &&& forall|i: int, j: int|
                0 <= i < j < HEAP_INITIAL_PAGES ==> page_frame(
                    final(tables)@,
                    hhdm_offset,
                    pml4,
                    #[trigger] heap_page(HEAP_START, i),
                ) != page_frame(final(tables)@, hhdm_offset, pml4, #[trigger] heap_page(HEAP_START, j))
        },
{
    proof {
        tables.lemma_sized();
    }
    let ghost s0 = PagingState { mem: tables@, frames: frames@ };
    let mut heap = LinkedListHeap::new(HEAP_START);
    let mut i: u64 = 0;
    while i < HEAP_INITIAL_PAGES
        invariant
            s0 == (PagingState { mem: old(tables)@, frames: old(frames)@ }),
            heap@ == empty_heap(HEAP_START),
            i <= HEAP_INITIAL_PAGES,
            hhdm_fits(hhdm_offset),
            frames@.wf(),
            map_heap_pages_valid(s0, hhdm_offset, pml4, HEAP_START, HEAP_INITIAL_PAGES as nat),
            map_heap_pages(s0, hhdm_offset, pml4, HEAP_START, i as nat) == (
            PagingState { mem: tables@, frames: frames@ }, true),
        decreases HEAP_INITIAL_PAGES - i,
    {
        proof {
            lemma_pages_valid_prefix(s0, hhdm_offset, pml4, HEAP_START, HEAP_INITIAL_PAGES as nat, (i + 1) as nat);
        }
        let virt = HEAP_START + i * PAGE_SIZE;
        let ghost before = PagingState { mem: tables@, frames: frames@ };
        let phys = match frames.alloc_frame() {
            Some(p) => p,
            None => {
                proof {
                    lemma_pages_fail_stays(s0, hhdm_offset, pml4, HEAP_START, (i + 1) as nat, HEAP_INITIAL_PAGES as nat);
                    assert(map_heap_pages(s0, hhdm_offset, pml4, HEAP_START, i as nat).1);
                }
                return Err(HeapInitError::OutOfFrames);
            },
        };
        proof {
            crate::memory::allocator::lemma_alloc_takes_free_frame(before.frames);
        }
        if map_page(tables, frames, hhdm_offset, pml4, virt, phys, PageTableEntry::PRESENT | PageTableEntry::WRITABLE).is_err() {
            proof {
                lemma_pages_fail_stays(s0, hhdm_offset, pml4, HEAP_START, (i + 1) as nat, HEAP_INITIAL_PAGES as nat);
                assert(map_heap_pages(s0, hhdm_offset, pml4, HEAP_START, i as nat).1);
            }
            return Err(HeapInitError::MapFailed(virt));
        }
        i = i + 1;
    }
    let bytes = HEAP_INITIAL_PAGES * PAGE_SIZE;
    let ghost before = heap@;
    let mut j: u64 = 0;
    while j < bytes
        invariant
            heap@ == (HeapModel { memory: before.memory + Seq::new(j as nat, |x: int| 0u8), ..before }),
            before == empty_heap(HEAP_START),
            j <= bytes,
            bytes == HEAP_INITIAL_PAGES * PAGE_SIZE,
        decreases bytes - j,
    {
        heap.memory.push(0);
        j = j + 1;
        assert(heap@.memory =~= before.memory + Seq::new(j as nat, |x: int| 0u8));
    }
    heap.heap_current_end = HEAP_START + bytes;
    heap.write_word(HEAP_START, bytes);
    heap.write_word(HEAP_START + 8, 0);
    heap.free_list = HEAP_START;
    proof {
        if crate::arch::x86_64::paging::tables_not_free(s0, hhdm_offset) {
            lemma_heap_pages_writable(s0, hhdm_offset, pml4, HEAP_START, HEAP_INITIAL_PAGES as nat);
        }
        heap.nodes@ = seq![HEAP_START];
        lemma_grown_wf(before, HEAP_INITIAL_PAGES as int);
        lemma_grown_keeps_tidy(before, HEAP_INITIAL_PAGES as int);
        assert(seq![HEAP_START].add(before.nodes) =~= seq![HEAP_START]);
    }
    Ok(heap)
}

/// An empty heap at `start`.
pub open spec fn empty_heap(start: u64) -> HeapModel {
    HeapModel {
        memory: Seq::empty(),
        heap_start: start,
        heap_current_end: start,
        heap_max_end: (start + HEAP_MAX_PAGES * PAGE_SIZE) as u64,
        free_list: 0,
        nodes: Seq::empty(),
    }
}

} // verus!
