//! The one piece of state that the workers of a run share: a counter that
//! each worker moves on by a fixed stride.

use vstd::prelude::*;
use std::sync::atomic::AtomicUsize;

verus! {

/// A counter shared by the workers of a run.
pub struct Cursor {
    next: AtomicUsize,
}

impl Cursor {
    /// A counter that stands at 0.
    pub fn new() -> Cursor {
        Cursor { next: AtomicUsize::new(0) }
    }

    /// Moves the counter on by `stride` and returns where it stood. What is
    /// returned depends on the other workers, so nothing is promised of it;
    /// the counter wraps where it passes the greatest `usize`.
    pub fn advance(&self, stride: usize) -> usize {
        self.next.fetch_add(stride, std::sync::atomic::Ordering::Relaxed)
    }
}

} // verus!
