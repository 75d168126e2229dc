//! Counting semaphore over an atomic counter.

use vstd::prelude::*;
use core::sync::atomic::{AtomicU32, Ordering};

verus! {

/// Counting semaphore for kernel synchronization.
///
/// The counter is shared between CPUs, so what an atomic operation returns depends on the other
/// CPUs; no contract here speaks of the counter's value.
pub struct Semaphore {
    count: AtomicU32,
}

impl Semaphore {
    /// A semaphore whose counter starts at `initial`.
    pub fn new(initial: u32) -> Self {
        Semaphore { count: AtomicU32::new(initial) }
    }

    /// One attempt to take a unit: reads the counter, computes with `acquire_step` the value that
    /// taking a unit leaves, and stores it by compare-and-swap against the value read; reports
    /// whether the swap took place. Nothing is stored when the counter read is 0, so the counter
    /// never passes through a wrapped value, and a failed swap (another CPU changed the counter)
    /// leaves it alone.
    pub fn try_acquire(&self) -> bool {
        let current = self.count.load(Ordering::Acquire);
        match acquire_step(current) {
            None => false,
            Some(next) => self.count.compare_exchange(current, next, Ordering::Acquire, Ordering::Relaxed).is_ok(),
        }
    }

    /// Gives a unit back; a counter at `u32::MAX` wraps to 0, as `fetch_add` does.
    pub fn release(&self) {
        self.count.fetch_add(1, Ordering::Release);
    }
}

/// The counter value that taking one unit from a counter of `current` leaves: one less, or
/// `None` when no unit is left.
pub fn acquire_step(current: u32) -> (r: Option<u32>)
    ensures
        current == 0 <==> r is None,
        r matches Some(n) ==> n == current - 1,
{
    if current == 0 {
        None
    } else {
        Some(current - 1)
    }
}

} // verus!
