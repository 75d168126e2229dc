//! Physical frame allocator backed by a bitmap (1 = used, 0 = free).

use vstd::prelude::*;
use crate::boot_info::{BootInfo, MemoryRegion};

verus! {

/// Size of a physical frame in bytes.
pub const PAGE_SIZE: u64 = 4096;

/// Number of frames the bitmap covers (64 GiB of physical memory).
pub const TOTAL_FRAMES: usize = 16777216;

/// Number of 64-bit words in the bitmap.
pub const BITMAP_WORDS: usize = 262144;

/// Whether bit `b` of `word` is set.
pub open spec fn bit_is_set(word: u64, b: u64) -> bool {
    (word >> b) & 1u64 == 1u64
}

/// Index of the frame that holds physical address `phys`.
pub open spec fn frame_index(phys: u64) -> int {
    (phys / PAGE_SIZE) as int
}

/// Physical address of the first byte of frame `f`.
pub open spec fn frame_address(f: int) -> int {
    f * PAGE_SIZE
}

/// The state of a frame allocator as plain mathematical values.
pub ghost struct FrameAllocatorModel {
    pub bitmap: Seq<u64>,
    pub free_frames: usize,
    pub next_search_word: usize,
    /// Usable frames of the memory map that lie beyond the bitmap and so are never handed out.
    pub untracked_frames: u64,
}

impl FrameAllocatorModel {
    pub open spec fn wf(self) -> bool {
        &&& self.bitmap.len() == BITMAP_WORDS
        &&& self.next_search_word < BITMAP_WORDS
    }

    /// Frame `f` is marked used in the bitmap.
    pub open spec fn is_used(self, f: int) -> bool {
        bit_is_set(self.bitmap[f / 64], (f % 64) as u64)
    }

    /// The frames that the bitmap marks free.
    pub open spec fn free_set(self) -> Set<int> {
        Set::new(|f: int| 0 <= f < TOTAL_FRAMES && !self.is_used(f))
    }

    /// The free-frame counter equals the number of frames the bitmap marks free.
    pub open spec fn counter_matches(self) -> bool {
        self.free_frames == self.free_set().len()
    }

    /// The bitmap with the bit of frame `f` set.
    pub open spec fn bitmap_with_used(self, f: int) -> Seq<u64> {
        self.bitmap.update(f / 64, self.bitmap[f / 64] | (1u64 << ((f % 64) as u64)))
    }

    /// The bitmap with the bit of frame `f` cleared.
    pub open spec fn bitmap_with_free(self, f: int) -> Seq<u64> {
        self.bitmap.update(f / 64, self.bitmap[f / 64] & !(1u64 << ((f % 64) as u64)))
    }

    /// Whether the frame of `phys` lies inside the bitmap.
    pub open spec fn covers(self, phys: u64) -> bool {
        frame_index(phys) < TOTAL_FRAMES
    }

    /// Freeing `phys` cannot overflow the counter.
    pub open spec fn can_free(self, phys: u64) -> bool {
        self.covers(phys) && self.is_used(frame_index(phys)) ==> self.free_frames < usize::MAX
    }

    /// The state after marking the frame of `phys` free.
    pub open spec fn after_mark_free(self, phys: u64) -> Self {
        let f = frame_index(phys);
        if self.covers(phys) {
            FrameAllocatorModel {
                bitmap: self.bitmap_with_free(f),
                free_frames: if self.is_used(f) {
                    (self.free_frames + 1) as usize
                } else {
                    self.free_frames
                },
                next_search_word: self.next_search_word,
                untracked_frames: self.untracked_frames,
            }
        } else {
            self
        }
    }

    /// The state after marking the frame of `phys` used.
    pub open spec fn after_mark_used(self, phys: u64) -> Self {
        let f = frame_index(phys);
        if self.covers(phys) {
            FrameAllocatorModel {
                bitmap: self.bitmap_with_used(f),
                free_frames: if !self.is_used(f) && self.free_frames > 0 {
                    (self.free_frames - 1) as usize
                } else {
                    self.free_frames
                },
                next_search_word: self.next_search_word,
                untracked_frames: self.untracked_frames,
            }
        } else {
            self
        }
    }

    /// The first word, scanning cyclically from `next_search_word + k`, that has a free bit.
    pub open spec fn first_nonfull_word_from(self, k: int) -> Option<int>
        decreases BITMAP_WORDS - k,
    {
        if k < 0 || k >= BITMAP_WORDS {
            None
        } else {
            let w = (self.next_search_word + k) % (BITMAP_WORDS as int);
            if self.bitmap[w] != !0u64 {
                Some(w)
            } else {
                self.first_nonfull_word_from(k + 1)
            }
        }
    }

    /// The word that the next allocation takes a frame from (next-fit).
    pub open spec fn alloc_word(self) -> Option<int> {
        self.first_nonfull_word_from(0)
    }

    /// The frame that the next allocation returns: the lowest free bit of `alloc_word`.
    pub open spec fn alloc_frame_index(self) -> Option<int> {
        match self.alloc_word() {
            Some(w) => Some(w * 64 + vstd::std_specs::bits::u64_trailing_zeros(!self.bitmap[w]) as int),
            None => None,
        }
    }

    /// The physical address that the next allocation returns.
    pub open spec fn alloc_result(self) -> Option<u64> {
        match self.alloc_frame_index() {
            Some(f) => Some(frame_address(f) as u64),
            None => None,
        }
    }

    /// The state after an allocation.
    pub open spec fn after_alloc(self) -> Self {
        match self.alloc_word() {
            Some(w) => {
                let f = w * 64 + vstd::std_specs::bits::u64_trailing_zeros(!self.bitmap[w]) as int;
                FrameAllocatorModel {
                    bitmap: self.bitmap_with_used(f),
                    free_frames: if self.free_frames > 0 {
                        (self.free_frames - 1) as usize
                    } else {
                        0
                    },
                    next_search_word: w as usize,
                    untracked_frames: self.untracked_frames,
                }
            },
            None => self,
        }
    }
}

proof fn lemma_bit_or(w: u64, b: u64, c: u64)
    by (bit_vector)
    requires
        b < 64,
        c < 64,
    ensures
        bit_is_set(w | (1u64 << b), c) == (c == b || bit_is_set(w, c)),
{
}

proof fn lemma_bit_clear(w: u64, b: u64, c: u64)
    by (bit_vector)
    requires
        b < 64,
        c < 64,
    ensures
        bit_is_set(w & !(1u64 << b), c) == (c != b && bit_is_set(w, c)),
{
}

proof fn lemma_bit_test(w: u64, b: u64)
    by (bit_vector)
    requires
        b < 64,
    ensures
        ((w & (1u64 << b)) != 0u64) == bit_is_set(w, b),
{
}

proof fn lemma_full_word_bit(c: u64)
    by (bit_vector)
    requires
        c < 64,
    ensures
        bit_is_set(!0u64, c),
{
}

proof fn lemma_complement_bit(w: u64, c: u64)
    by (bit_vector)
    requires
        c < 64,
    ensures
        bit_is_set(!w, c) == !bit_is_set(w, c),
{
}

/// The lowest free bit of a word that is not full.
proof fn lemma_lowest_free_bit(w: u64)
    requires
        w != !0u64,
    ensures
        vstd::std_specs::bits::u64_trailing_zeros(!w) < 64,
        !bit_is_set(w, vstd::std_specs::bits::u64_trailing_zeros(!w) as u64),
        forall|c: u64| c < vstd::std_specs::bits::u64_trailing_zeros(!w) ==> bit_is_set(w, c),
{
    vstd::std_specs::bits::axiom_u64_trailing_zeros(!w);
    assert(!w != 0u64) by (bit_vector)
        requires
            w != !0u64,
    ;
    let t = vstd::std_specs::bits::u64_trailing_zeros(!w) as u64;
    lemma_complement_bit(w, t);
    assert forall|c: u64| c < vstd::std_specs::bits::u64_trailing_zeros(!w) implies bit_is_set(w, c) by {
        lemma_complement_bit(w, c);
        assert(((!w) >> c) & 1u64 == 0u64);
    }
}

/// Splitting a frame index into word and bit is injective.
proof fn lemma_frame_split(f: int, g: int)
    requires
        0 <= f,
        0 <= g,
        f / 64 == g / 64,
        f % 64 == g % 64,
    ensures
        f == g,
{
}

impl FrameAllocatorModel {
    /// Setting the bit of frame `f` changes only whether `f` is used.
    pub proof fn lemma_set_used(self, f: int)
        requires
            self.wf(),
            0 <= f < TOTAL_FRAMES,
        ensures
            ({
                let s = FrameAllocatorModel { bitmap: self.bitmap_with_used(f), ..self };
                &&& s.wf()
                &&& forall|g: int| 0 <= g < TOTAL_FRAMES ==> #[trigger] s.is_used(g) == (g == f || self.is_used(g))
                &&& s.free_set() == self.free_set().remove(f)
            }),
    {
        let s = FrameAllocatorModel { bitmap: self.bitmap_with_used(f), ..self };
        assert forall|g: int| 0 <= g < TOTAL_FRAMES implies #[trigger] s.is_used(g) == (g == f || self.is_used(g)) by {
            if g / 64 == f / 64 {
                lemma_bit_or(self.bitmap[f / 64], (f % 64) as u64, (g % 64) as u64);
                if g != f {
                    if g % 64 == f % 64 {
                        lemma_frame_split(f, g);
                    }
                }
            }
        }
        assert(s.free_set() =~= self.free_set().remove(f));
    }

    /// Clearing the bit of frame `f` changes only whether `f` is used.
    pub proof fn lemma_set_free(self, f: int)
        requires
            self.wf(),
            0 <= f < TOTAL_FRAMES,
        ensures
            ({
                let s = FrameAllocatorModel { bitmap: self.bitmap_with_free(f), ..self };
                &&& s.wf()
                &&& forall|g: int| 0 <= g < TOTAL_FRAMES ==> #[trigger] s.is_used(g) == (g != f && self.is_used(g))
                &&& s.free_set() == self.free_set().insert(f)
            }),
    {
        let s = FrameAllocatorModel { bitmap: self.bitmap_with_free(f), ..self };
        assert forall|g: int| 0 <= g < TOTAL_FRAMES implies #[trigger] s.is_used(g) == (g != f && self.is_used(g)) by {
            if g / 64 == f / 64 {
                lemma_bit_clear(self.bitmap[f / 64], (f % 64) as u64, (g % 64) as u64);
                if g != f {
                    if g % 64 == f % 64 {
                        lemma_frame_split(f, g);
                    }
                }
            }
        }
        assert(s.free_set() =~= self.free_set().insert(f));
    }

    /// The free set is finite and holds at most `TOTAL_FRAMES` frames.
    pub proof fn lemma_free_set_finite(self)
        ensures
            self.free_set().finite(),
            self.free_set().len() <= TOTAL_FRAMES,
    {
        vstd::set_lib::lemma_int_range(0, TOTAL_FRAMES as int);
        vstd::set_lib::lemma_len_subset(self.free_set(), vstd::set_lib::set_int_range(0, TOTAL_FRAMES as int));
    }

    /// Scanning from offset `k` finds a word iff some word at offset `k` or later is not full,
    /// and the word it finds is not full, while every word before it is full.
    pub proof fn lemma_first_nonfull(self, k: int)
        requires
            self.wf(),
            0 <= k <= BITMAP_WORDS,
        ensures
            match self.first_nonfull_word_from(k) {
                Some(w) => {
                    &&& 0 <= w < BITMAP_WORDS
                    &&& self.bitmap[w] != !0u64
                },
                None => forall|j: int| k <= j < BITMAP_WORDS ==>
                    self.bitmap[#[trigger] ((self.next_search_word + j) % (BITMAP_WORDS as int))] == !0u64,
            },
        decreases BITMAP_WORDS - k,
    {
        if k < BITMAP_WORDS {
            self.lemma_first_nonfull(k + 1);
        }
    }

    /// When no word has a free bit, no frame is free.
    pub proof fn lemma_all_full(self)
        requires
            self.wf(),
            self.alloc_word() is None,
        ensures
            self.free_set() == Set::<int>::empty(),
    {
        self.lemma_first_nonfull(0);
        assert forall|f: int| 0 <= f < TOTAL_FRAMES implies self.is_used(f) by {
            let w = f / 64;
            let j = if w >= self.next_search_word {
                w - self.next_search_word
            } else {
                w + BITMAP_WORDS - self.next_search_word
            };
            assert((self.next_search_word + j) % (BITMAP_WORDS as int) == w);
            assert(self.bitmap[w] == !0u64);
            lemma_full_word_bit((f % 64) as u64);
        }
        assert(self.free_set() =~= Set::<int>::empty());
    }

    /// The frame an allocation picks is free and inside the bitmap.
    pub proof fn lemma_alloc_picks_free(self)
        requires
            self.wf(),
            self.alloc_word() is Some,
        ensures
            ({
                let f = self.alloc_frame_index().unwrap();
                &&& 0 <= f < TOTAL_FRAMES
                &&& f / 64 == self.alloc_word().unwrap()
                &&& f % 64 == vstd::std_specs::bits::u64_trailing_zeros(!self.bitmap[f / 64]) as int
                &&& self.free_set().contains(f)
            }),
    {
        self.lemma_first_nonfull(0);
        let w = self.alloc_word().unwrap();
        lemma_lowest_free_bit(self.bitmap[w]);
    }
}

/// When the counter equals the number of free frames, no frame can overflow it when freed.
pub proof fn lemma_matching_counter_can_free(m: FrameAllocatorModel, phys: u64)
    requires
        m.wf(),
        m.counter_matches(),
    ensures
        m.can_free(phys),
{
    m.lemma_free_set_finite();
}

/// Marking a frame free keeps the counter equal to the number of free frames.
pub proof fn lemma_mark_free_keeps_counter(m: FrameAllocatorModel, phys: u64)
    requires
        m.wf(),
        m.counter_matches(),
    ensures
        m.after_mark_free(phys).wf(),
        m.after_mark_free(phys).counter_matches(),
        m.covers(phys) ==> m.after_mark_free(phys).free_set() == m.free_set().insert(frame_index(phys)),
{
    m.lemma_free_set_finite();
    if m.covers(phys) {
        let f = frame_index(phys);
        m.lemma_set_free(f);
        if m.is_used(f) {
            assert(!m.free_set().contains(f));
            assert(m.free_set().insert(f).len() == m.free_set().len() + 1);
            assert(m.after_mark_free(phys).free_frames == m.free_frames + 1);
            assert(m.after_mark_free(phys).free_set() == m.free_set().insert(f));
        } else {
            assert(m.free_set().insert(f) =~= m.free_set());
        }
    }
}

/// Marking a frame used keeps the counter equal to the number of free frames.
pub proof fn lemma_mark_used_keeps_counter(m: FrameAllocatorModel, phys: u64)
    requires
        m.wf(),
        m.counter_matches(),
    ensures
        m.after_mark_used(phys).wf(),
        m.after_mark_used(phys).counter_matches(),
        m.covers(phys) ==> m.after_mark_used(phys).free_set() == m.free_set().remove(frame_index(phys)),
{
    m.lemma_free_set_finite();
    if m.covers(phys) {
        let f = frame_index(phys);
        m.lemma_set_used(f);
        if !m.is_used(f) {
            assert(m.free_set().contains(f));
            assert(m.free_set().remove(f).len() == m.free_set().len() - 1);
            assert(m.after_mark_used(phys).free_set() == m.free_set().remove(f));
        } else {
            assert(m.free_set().remove(f) =~= m.free_set());
            assert(m.after_mark_used(phys).free_set() == m.free_set().remove(f));
        }
    }
}

/// An allocation hands out a frame that was free, takes exactly that frame out of the free set,
/// and keeps the counter equal to the number of free frames.
pub proof fn lemma_alloc_takes_free_frame(m: FrameAllocatorModel)
    requires
        m.wf(),
    ensures
        m.after_alloc().wf(),
        m.counter_matches() ==> m.after_alloc().counter_matches(),
        match m.alloc_result() {
            Some(phys) => {
                &&& phys % PAGE_SIZE == 0
                &&& m.covers(phys)
                &&& m.free_set().contains(frame_index(phys))
                &&& m.after_alloc().free_set() == m.free_set().remove(frame_index(phys))
                &&& !m.after_alloc().free_set().contains(frame_index(phys))
            },
            None => m.free_set() == Set::<int>::empty() && m.after_alloc() == m,
        },
{
    m.lemma_free_set_finite();
    if m.alloc_word() is Some {
        m.lemma_alloc_picks_free();
        let f = m.alloc_frame_index().unwrap();
        m.lemma_set_used(f);
        assert(m.free_set().remove(f).len() == m.free_set().len() - 1);
        assert(m.after_alloc().free_set() == m.free_set().remove(f));
        assert(frame_index(frame_address(f) as u64) == f);
    } else {
        m.lemma_all_full();
    }
}

/// Freeing the frame that an allocation handed out gives back the free set and the counter
/// that the allocator had before the allocation.
pub proof fn lemma_alloc_then_free_restores(m: FrameAllocatorModel)
    requires
        m.wf(),
        m.counter_matches(),
        m.alloc_result() is Some,
    ensures
        m.after_alloc().after_mark_free(m.alloc_result().unwrap()).free_set() == m.free_set(),
        m.after_alloc().after_mark_free(m.alloc_result().unwrap()).free_frames == m.free_frames,
{
    lemma_alloc_takes_free_frame(m);
    let phys = m.alloc_result().unwrap();
    let a = m.after_alloc();
    lemma_mark_free_keeps_counter(a, phys);
    assert(a.after_mark_free(phys).free_set() =~= m.free_set());
}

/// A bitmap frame allocator with a next-fit search hint.
pub struct FrameAllocator {
    bitmap: Vec<u64>,
    free_frames: usize,
    next_search_word: usize,
    untracked_frames: u64,
}

impl View for FrameAllocator {
    type V = FrameAllocatorModel;

    closed spec fn view(&self) -> FrameAllocatorModel {
        FrameAllocatorModel {
            bitmap: self.bitmap@,
            free_frames: self.free_frames,
            next_search_word: self.next_search_word,
            untracked_frames: self.untracked_frames,
        }
    }
}

impl FrameAllocator {
    /// An allocator with every frame marked used and a zero counter.
    pub fn new_empty() -> (r: Self)
        ensures
            r@.wf(),
            r@.free_frames == 0,
            r@.next_search_word == 0,
            r@.untracked_frames == 0,
            forall|i: int| 0 <= i < BITMAP_WORDS ==> #[trigger] r@.bitmap[i] == !0u64,
            r@.free_set() == Set::<int>::empty(),
    {
        let mut bitmap: Vec<u64> = Vec::new();
        let mut i: usize = 0;
        while i < BITMAP_WORDS
            invariant
                i <= BITMAP_WORDS,
                bitmap@.len() == i,
                forall|j: int| 0 <= j < i ==> #[trigger] bitmap@[j] == !0u64,
            decreases BITMAP_WORDS - i,
        {
            bitmap.push(!0u64);
            i = i + 1;
        }
        let r = FrameAllocator { bitmap, free_frames: 0, next_search_word: 0, untracked_frames: 0 };
        proof {
            assert forall|f: int| 0 <= f < TOTAL_FRAMES implies r@.is_used(f) by {
                lemma_full_word_bit((f % 64) as u64);
            }
            assert(r@.free_set() =~= Set::<int>::empty());
        }
        r
    }

    /// Usable frames of the boot memory map that lie beyond the bitmap: reported, never handed
    /// out.
    pub fn untracked_frames(&self) -> (n: u64)
        ensures
            n == self@.untracked_frames,
    {
        self.untracked_frames
    }

    /// Number of frames the counter records as free.
    pub fn free_frames(&self) -> (n: usize)
        ensures
            n == self@.free_frames,
    {
        self.free_frames
    }

    /// Marks the frame holding `frame` free; frames beyond the bitmap are ignored.
    pub fn mark_free(&mut self, frame: u64)
        requires
            old(self)@.wf(),
            old(self)@.can_free(frame),
        ensures
            final(self)@ == old(self)@.after_mark_free(frame),
            final(self)@.wf(),
    {
        let frame_idx: u64 = frame / PAGE_SIZE;
        let word_idx: u64 = frame_idx / 64;
        let bit_idx: u64 = frame_idx % 64;
        if word_idx < BITMAP_WORDS as u64 {
            let w = word_idx as usize;
            let old_word = self.bitmap[w];
            let was_used = (old_word & (1u64 << bit_idx)) != 0;
            proof {
                lemma_bit_test(old_word, bit_idx);
            }
            self.bitmap[w] = old_word & !(1u64 << bit_idx);
            if was_used {
                self.free_frames = self.free_frames + 1;
            }
        }
    }

    /// Marks the frame holding `frame` used; frames beyond the bitmap are ignored.
    pub fn mark_used(&mut self, frame: u64)
        requires
            old(self)@.wf(),
        ensures
            final(self)@ == old(self)@.after_mark_used(frame),
            final(self)@.wf(),
    {
        let frame_idx: u64 = frame / PAGE_SIZE;
        let word_idx: u64 = frame_idx / 64;
        let bit_idx: u64 = frame_idx % 64;
        if word_idx < BITMAP_WORDS as u64 {
            let w = word_idx as usize;
            let old_word = self.bitmap[w];
            let was_free = (old_word & (1u64 << bit_idx)) == 0;
            proof {
                lemma_bit_test(old_word, bit_idx);
            }
            self.bitmap[w] = old_word | (1u64 << bit_idx);
            if was_free {
                self.free_frames = self.free_frames.saturating_sub(1);
            }
        }
    }

    /// Allocates a frame by next-fit search over the bitmap words, starting at the hint.
    /// Returns the frame's physical address, or `None` when every frame is used.
    pub fn alloc_frame(&mut self) -> (r: Option<u64>)
        requires
            old(self)@.wf(),
        ensures
            r == old(self)@.alloc_result(),
            final(self)@ == old(self)@.after_alloc(),
            final(self)@.wf(),
            r is None <==> old(self)@.free_set() == Set::<int>::empty(),
    {
        let ghost m = self@;
        let mut start_word: usize = 0;
        while start_word < BITMAP_WORDS
            invariant
                self@ == m,
                m == old(self)@,
                m.wf(),
                start_word <= BITMAP_WORDS,
                m.first_nonfull_word_from(0) == m.first_nonfull_word_from(start_word as int),
            decreases BITMAP_WORDS - start_word,
        {
            let word_idx = (self.next_search_word + start_word) % BITMAP_WORDS;
            let word = self.bitmap[word_idx];
            if word != !0u64 {
                let bit_idx = (!word).trailing_zeros() as u64;
                proof {
                    assert(m.first_nonfull_word_from(start_word as int) == Some(word_idx as int));
                    lemma_lowest_free_bit(word);
                    m.lemma_alloc_picks_free();
                }
                self.bitmap[word_idx] = word | (1u64 << bit_idx);
                self.free_frames = self.free_frames.saturating_sub(1);
                self.next_search_word = word_idx;
                let frame_idx: u64 = word_idx as u64 * 64 + bit_idx;
                let phys_addr: u64 = frame_idx * PAGE_SIZE;
                proof {
                    let f = frame_idx as int;
                    assert(f / 64 == word_idx as int);
                    assert(f % 64 == bit_idx as int);
                    assert(self@.bitmap =~= m.bitmap_with_used(f));
                    assert(m.alloc_frame_index() == Some(f));
                    assert(m.alloc_result() == Some(phys_addr));
                    assert(self@.free_frames == m.after_alloc().free_frames);
                    assert(self@.next_search_word == m.after_alloc().next_search_word);
                    assert(self@.bitmap == m.after_alloc().bitmap);
                    assert(self@ == m.after_alloc());
                }
                return Some(phys_addr);
            }
            start_word = start_word + 1;
        }
        proof {
            m.lemma_all_full();
        }
        None
    }

    /// Returns the frame at `phys` to the free pool; frames beyond the bitmap are ignored.
    pub fn free_frame(&mut self, phys: u64)
        requires
            old(self)@.wf(),
            old(self)@.can_free(phys),
        ensures
            final(self)@ == old(self)@.after_mark_free(phys),
            final(self)@.wf(),
    {
        let frame_idx: u64 = phys / PAGE_SIZE;
        let word_idx: u64 = frame_idx / 64;
        let bit_idx: u64 = frame_idx % 64;
        if word_idx < BITMAP_WORDS as u64 {
            let w = word_idx as usize;
            let old_word = self.bitmap[w];
            let was_used = (old_word & (1u64 << bit_idx)) != 0;
            proof {
                lemma_bit_test(old_word, bit_idx);
            }
            self.bitmap[w] = old_word & !(1u64 << bit_idx);
            if was_used {
                self.free_frames = self.free_frames + 1;
            }
        }
    }
}

/// Allocates one physical frame from `allocator`.
pub fn alloc_frame(allocator: &mut FrameAllocator) -> (r: Option<u64>)
    requires
        old(allocator)@.wf(),
    ensures
        r == old(allocator)@.alloc_result(),
        final(allocator)@ == old(allocator)@.after_alloc(),
        final(allocator)@.wf(),
        r is None <==> old(allocator)@.free_set() == Set::<int>::empty(),
        old(allocator)@.counter_matches() ==> final(allocator)@.counter_matches(),
{
    proof {
        lemma_alloc_takes_free_frame(allocator@);
    }
    allocator.alloc_frame()
}

/// Returns the frame at `phys` to `allocator`.
pub fn free_frame(allocator: &mut FrameAllocator, phys: u64)
    requires
        old(allocator)@.wf(),
        old(allocator)@.can_free(phys),
    ensures
        final(allocator)@ == old(allocator)@.after_mark_free(phys),
        final(allocator)@.wf(),
        old(allocator)@.counter_matches() ==> final(allocator)@.counter_matches(),
{
    proof {
        if allocator@.counter_matches() {
            lemma_mark_free_keeps_counter(allocator@, phys);
        }
    }
    allocator.free_frame(phys)
}

/// When the counter matches the free frames, it is 0 exactly when an allocation finds no frame.
pub proof fn lemma_counter_zero_iff_exhausted(m: FrameAllocatorModel)
    requires
        m.wf(),
        m.counter_matches(),
    ensures
        (m.free_frames == 0) <==> m.alloc_result() is None,
{
    m.lemma_free_set_finite();
    lemma_alloc_takes_free_frame(m);
    if m.free_frames == 0 {
        assert(m.free_set() =~= Set::<int>::empty());
    }
    if m.alloc_result() is None {
        assert(m.free_set().len() == 0);
    }
}

/// Freeing the same frame twice is freeing it once: the second call changes nothing.
pub proof fn lemma_mark_free_idempotent(m: FrameAllocatorModel, phys: u64)
    requires
        m.wf(),
    ensures
        m.after_mark_free(phys).after_mark_free(phys) == m.after_mark_free(phys),
{
    if m.covers(phys) {
        let f = frame_index(phys);
        m.lemma_set_free(f);
        let m1 = m.after_mark_free(phys);
        assert(!m1.is_used(f));
        let x = m.bitmap[f / 64];
        let b = (f % 64) as u64;
        assert((x & !(1u64 << b)) & !(1u64 << b) == x & !(1u64 << b)) by (bit_vector);
        assert(m1.bitmap_with_free(f) =~= m1.bitmap);
    }
}

/// The free-frame counter of `allocator`.
pub fn free_frame_count(allocator: &FrameAllocator) -> (n: usize)
    ensures
        n == allocator@.free_frames,
{
    allocator.free_frames
}


/// Frames of the low 1 MiB, which stay reserved.
pub const LOW_MEMORY_FRAMES: u64 = 256;

/// The first frame of a memory-map region.
pub open spec fn region_first_frame(r: MemoryRegion) -> int {
    (r.base / PAGE_SIZE) as int
}

/// The number of whole frames a memory-map region spans.
pub open spec fn region_frame_count(r: MemoryRegion) -> int {
    (r.length / PAGE_SIZE) as int
}

/// Frame `f` lies in the frames of region `r`.
pub open spec fn region_holds(r: MemoryRegion, f: int) -> bool {
    region_first_frame(r) <= f < region_first_frame(r) + region_frame_count(r)
}

/// The frames inside the bitmap that some usable region of `map` spans.
pub open spec fn usable_frames(map: Seq<MemoryRegion>) -> Set<int> {
    Set::new(
        |f: int|
            0 <= f < TOTAL_FRAMES && exists|j: int| 0 <= j < map.len() && map[j].usable && #[trigger] region_holds(map[j], f),
    )
}

/// The frames of region `r` that lie beyond the bitmap.
pub open spec fn region_untracked(r: MemoryRegion) -> int {
    let e = region_first_frame(r) + region_frame_count(r);
    if e > TOTAL_FRAMES {
        e - if region_first_frame(r) > TOTAL_FRAMES { region_first_frame(r) } else { TOTAL_FRAMES as int }
    } else {
        0
    }
}

/// The number of frames of usable regions of `map` that lie beyond the bitmap, summed region by
/// region and held at `u64::MAX`.
pub open spec fn untracked_total(map: Seq<MemoryRegion>) -> int
    decreases map.len(),
{
    if map.len() == 0 {
        0
    } else {
        let t = untracked_total(map.drop_last()) + if map.last().usable {
            region_untracked(map.last())
        } else {
            0
        };
        if t > u64::MAX {
            u64::MAX as int
        } else {
            t
        }
    }
}

/// The frames that overlap the physical byte range `[start, end)`.
pub open spec fn overlapping_frames(start: u64, end: u64) -> Set<int> {
    Set::new(|f: int| start < end && f * PAGE_SIZE < end && start < (f + 1) * PAGE_SIZE)
}

/// The frames of the low 1 MiB.
pub open spec fn low_frames() -> Set<int> {
    Set::new(|f: int| f < LOW_MEMORY_FRAMES)
}

/// The free set that `init` produces: the frames of the usable regions, without the frames that
/// the kernel image `[kernel_start, kernel_end)` overlaps and without the low 1 MiB.
pub open spec fn init_free(map: Seq<MemoryRegion>, kernel_start: u64, kernel_end: u64) -> Set<int> {
    usable_frames(map).difference(overlapping_frames(kernel_start, kernel_end)).difference(low_frames())
}

/// After `init`, the low 1 MiB and every frame that the kernel image overlaps are used, and every
/// free frame lies in a usable region of the memory map.
pub proof fn lemma_init_reserves_kernel_and_low_memory(map: Seq<MemoryRegion>, kernel_start: u64, kernel_end: u64)
    ensures
        ({
            let free = init_free(map, kernel_start, kernel_end);
            &&& forall|f: int| 0 <= f < LOW_MEMORY_FRAMES ==> !#[trigger] free.contains(f)
            &&& forall|f: int|
                kernel_start < kernel_end && f * PAGE_SIZE < kernel_end && kernel_start < (f + 1) * PAGE_SIZE
                    ==> !#[trigger] free.contains(f)
            &&& forall|f: int| #[trigger] free.contains(f) ==> usable_frames(map).contains(f)
        }),
{
}

/// The frame holding the kernel image's first byte, `kernel_virt - virt_base + phys_base`.
pub open spec fn kernel_phys(boot_virt_base: u64, boot_phys_base: u64, kernel_virt: u64) -> u64 {
    (kernel_virt - boot_virt_base + boot_phys_base) as u64
}

/// Builds the frame allocator from the boot memory map: every frame of a usable region that the
/// bitmap covers becomes free, counted once; then every frame that the kernel image
/// `[kernel_virt_start, kernel_virt_end)`, translated to physical addresses, overlaps becomes used
/// again, and finally the low 1 MiB. The counter ends equal to the number of free frames.
pub fn init(boot: &BootInfo, kernel_virt_start: u64, kernel_virt_end: u64) -> (a: FrameAllocator)
    requires
        boot.kernel_virt_base <= kernel_virt_start,
        boot.kernel_virt_base <= kernel_virt_end,
        kernel_virt_start - boot.kernel_virt_base + boot.kernel_phys_base <= u64::MAX,
        kernel_virt_end - boot.kernel_virt_base + boot.kernel_phys_base <= u64::MAX,
    ensures
        a@.wf(),
        a@.next_search_word == 0,
        a@.counter_matches(),
        a@.untracked_frames == untracked_total(boot.memory_map@),
        a@.free_set() == init_free(
            boot.memory_map@,
            kernel_phys(boot.kernel_virt_base, boot.kernel_phys_base, kernel_virt_start),
            kernel_phys(boot.kernel_virt_base, boot.kernel_phys_base, kernel_virt_end),
        ),
{
    let mut alloc = FrameAllocator::new_empty();
    let ghost map = boot.memory_map@;
    let n = boot.memory_map.len();
    let mut i: usize = 0;
    proof {
        alloc@.lemma_free_set_finite();
        assert(usable_frames(map.take(0)) =~= Set::<int>::empty());
    }
    while i < n
        invariant
            map == boot.memory_map@,
            n == map.len(),
            i <= n,
            alloc@.wf(),
            alloc@.next_search_word == 0,
            alloc@.counter_matches(),
            alloc@.free_set() == usable_frames(map.take(i as int)),
            alloc@.untracked_frames == untracked_total(map.take(i as int)),
        decreases n - i,
    {
        let entry = boot.memory_map[i];
        proof {
            assert(map.take(i + 1).drop_last() =~= map.take(i as int));
            assert(map.take(i + 1).last() == entry);
        }
        if entry.usable {
            let start_frame: u64 = entry.base / PAGE_SIZE;
            let end_frame: u64 = start_frame + entry.length / PAGE_SIZE;
            let stop: u64 = if end_frame < TOTAL_FRAMES as u64 { end_frame } else { TOTAL_FRAMES as u64 };
            let mut f: u64 = start_frame;
            while f < stop
                invariant
                    start_frame <= f,
                    stop <= TOTAL_FRAMES,
                    stop <= end_frame,
                    f <= stop || f == start_frame,
                    start_frame == region_first_frame(entry),
                    end_frame == region_first_frame(entry) + region_frame_count(entry),
                    stop == if end_frame < TOTAL_FRAMES { end_frame } else { TOTAL_FRAMES as u64 },
                    alloc@.wf(),
                    alloc@.next_search_word == 0,
                    alloc@.counter_matches(),
                    alloc@.untracked_frames == untracked_total(map.take(i as int)),
                    alloc@.free_set() == usable_frames(map.take(i as int)).union(
                        Set::new(|g: int| 0 <= g < TOTAL_FRAMES && start_frame <= g < f),
                    ),
                decreases stop - f,
            {
                let ghost before = alloc@;
                proof {
                    lemma_matching_counter_can_free(before, (f * PAGE_SIZE) as u64);
                    lemma_mark_free_keeps_counter(before, (f * PAGE_SIZE) as u64);
                    assert(frame_index((f * PAGE_SIZE) as u64) == f);
                }
                alloc.mark_free(f * PAGE_SIZE);
                proof {
                    assert(alloc@.free_set() =~= usable_frames(map.take(i as int)).union(
                        Set::new(|g: int| 0 <= g < TOTAL_FRAMES && start_frame <= g < f + 1),
                    ));
                }
                f = f + 1;
            }
            proof {
                assert(alloc@.free_set() =~= usable_frames(map.take(i as int)).union(
                    Set::new(|g: int| 0 <= g < TOTAL_FRAMES && start_frame <= g < end_frame),
                ));
            }
            if end_frame > TOTAL_FRAMES as u64 {
                let from: u64 = if start_frame > TOTAL_FRAMES as u64 { start_frame } else { TOTAL_FRAMES as u64 };
                let ghost before = alloc@;
                alloc.untracked_frames = alloc.untracked_frames.saturating_add(end_frame - from);
                proof {
                    assert(alloc@.bitmap == before.bitmap);
                    assert(alloc@.free_set() =~= before.free_set());
                }
            }
        }
        proof {
            let r = Set::new(|g: int| 0 <= g < TOTAL_FRAMES && region_first_frame(entry) <= g
                < region_first_frame(entry) + region_frame_count(entry));
            assert forall|g: int| #[trigger] usable_frames(map.take(i + 1)).contains(g) <==> (
                usable_frames(map.take(i as int)).contains(g) || (entry.usable && r.contains(g))) by {
                assert(map.take(i + 1)[i as int] == entry);
                if usable_frames(map.take(i + 1)).contains(g) {
                    let j = choose|j: int| 0 <= j < map.take(i + 1).len() && map.take(i + 1)[j].usable
                        && #[trigger] region_holds(map.take(i + 1)[j], g);
                    if j < i {
                        assert(map.take(i as int)[j] == map.take(i + 1)[j]);
                        assert(region_holds(map.take(i as int)[j], g));
                    } else {
                        assert(j == i);
                    }
                }
                if usable_frames(map.take(i as int)).contains(g) {
                    let j = choose|j: int| 0 <= j < map.take(i as int).len() && map.take(i as int)[j].usable
                        && #[trigger] region_holds(map.take(i as int)[j], g);
                    assert(map.take(i + 1)[j] == map.take(i as int)[j]);
                    assert(region_holds(map.take(i + 1)[j], g));
                }
                if entry.usable && r.contains(g) {
                    assert(region_holds(map.take(i + 1)[i as int], g));
                }
            }
            assert(alloc@.free_set() =~= usable_frames(map.take(i + 1)));
        }
        i = i + 1;
    }
    proof {
        assert(map.take(n as int) =~= map);
    }

    let kernel_phys_start = kernel_virt_start - boot.kernel_virt_base + boot.kernel_phys_base;
    let kernel_phys_end = kernel_virt_end - boot.kernel_virt_base + boot.kernel_phys_base;
    let ghost f0 = usable_frames(map);
    let ghost kernel = overlapping_frames(kernel_phys_start, kernel_phys_end);
    if kernel_phys_start < kernel_phys_end {
        let start_frame: u64 = kernel_phys_start / PAGE_SIZE;
        let end_frame: u64 = kernel_phys_end / PAGE_SIZE + if kernel_phys_end % PAGE_SIZE != 0 { 1 } else { 0 };
        let stop: u64 = if end_frame < TOTAL_FRAMES as u64 { end_frame } else { TOTAL_FRAMES as u64 };
        let mut f: u64 = start_frame;
        proof {
            assert forall|g: int| #[trigger] kernel.contains(g) <==> start_frame <= g < end_frame by {
                if kernel.contains(g) {
                    assert(g * 4096 < kernel_phys_end);
                    assert(kernel_phys_start < (g + 1) * 4096);
                }
            }
            assert(f0.difference(Set::new(|g: int| start_frame <= g < f)) =~= f0);
        }
        while f < stop
            invariant
                start_frame <= f,
                f <= stop || f == start_frame,
                stop <= TOTAL_FRAMES,
                forall|h: int| #[trigger] f0.contains(h) ==> 0 <= h < TOTAL_FRAMES,
                stop == if end_frame < TOTAL_FRAMES { end_frame } else { TOTAL_FRAMES as u64 },
                alloc@.wf(),
                alloc@.next_search_word == 0,
                alloc@.counter_matches(),
                alloc@.untracked_frames == untracked_total(map),
                f0 == usable_frames(map),
                alloc@.free_set() == f0.difference(Set::new(|g: int| start_frame <= g < f)),
            decreases stop - f,
        {
            let ghost before = alloc@;
            proof {
                lemma_mark_used_keeps_counter(before, (f * PAGE_SIZE) as u64);
                assert(frame_index((f * PAGE_SIZE) as u64) == f);
            }
            alloc.mark_used(f * PAGE_SIZE);
            proof {
                assert(alloc@.free_set() =~= f0.difference(Set::new(|g: int| start_frame <= g < f + 1)));
            }
            f = f + 1;
        }
        proof {
            assert(alloc@.free_set() =~= f0.difference(kernel));
        }
    } else {
        proof {
            assert(kernel =~= Set::<int>::empty());
            assert(alloc@.free_set() =~= f0.difference(kernel));
        }
    }
    let ghost f1 = f0.difference(kernel);
    let mut g: u64 = 0;
    proof {
        assert(f1.difference(Set::new(|h: int| h < 0)) =~= f1);
    }
    while g < LOW_MEMORY_FRAMES
        invariant
            g <= LOW_MEMORY_FRAMES,
            alloc@.wf(),
            alloc@.next_search_word == 0,
            alloc@.counter_matches(),
            alloc@.untracked_frames == untracked_total(map),
            alloc@.free_set() == f1.difference(Set::new(|h: int| h < g)),
        decreases LOW_MEMORY_FRAMES - g,
    {
        let ghost before = alloc@;
        proof {
            lemma_mark_used_keeps_counter(before, (g * PAGE_SIZE) as u64);
            assert(frame_index((g * PAGE_SIZE) as u64) == g);
        }
        alloc.mark_used(g * PAGE_SIZE);
        proof {
            assert(alloc@.free_set() =~= f1.difference(Set::new(|h: int| h < g + 1)));
        }
        g = g + 1;
    }
    proof {
        assert(alloc@.free_set() =~= f1.difference(low_frames()));
    }
    alloc
}

} // verus!
