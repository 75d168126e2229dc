//! Memory-manager bookkeeping on top of the frame allocator.

use vstd::prelude::*;
use crate::memory::allocator::{free_frame_count, FrameAllocator};

verus! {

/// Starts the memory manager: reads how many frames the allocator has free, the amount of usable
/// memory the manager starts from, and returns it.
pub fn init(allocator: &FrameAllocator) -> (free: usize)
    ensures
        free == allocator@.free_frames,
{
    free_frame_count(allocator)
}

} // verus!
