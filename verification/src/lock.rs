//! The mutual-exclusion primitive: a binary spin lock with a scoped
//! guard, used to serialize diagnostic trace writes across concurrent
//! callers. It guards no allocator state — allocations share nothing.

use vstd::prelude::*;
use core::sync::atomic::AtomicBool;
use core::sync::atomic::Ordering;

verus! {

/// A binary spin lock: an atomically tested-and-set flag.
pub struct AtomicLock {
    flag: AtomicBool,
}

/// Holds its lock for the span of its lifetime; the release runs on
/// every exit path from the critical section.
pub struct Guard<'a> {
    parent: &'a AtomicLock,
}

impl AtomicLock {
    /// A fresh lock, not held by anyone.
    pub fn new() -> AtomicLock {
        AtomicLock { flag: AtomicBool::new(false) }
    }

    /// Spin until the flag transitions from free to held; no fairness
    /// is promised, and under contention the wait is unbounded.
    pub fn lock(&self) -> Guard<'_> {
        acquire(&self.flag);
        Guard { parent: self }
    }
}

/// Relies on core::sync::atomic::AtomicBool::swap: atomically exchanges
/// the flag for `true` and hands back what it held, so the loop owns
/// the free-to-held transition when it exits. The busy wait is
/// unbounded, which is why the loop stands here.
#[verifier::external_body]
fn acquire(flag: &AtomicBool) {
    while flag.swap(true, Ordering::SeqCst) {
    }
}

impl<'a> Drop for Guard<'a> {
    /// Relies on core::sync::atomic::AtomicBool::store: unconditionally
    /// puts the flag back to free; it neither unwinds nor touches
    /// anything else.
    #[verifier::external_body]
    fn drop(&mut self)
        opens_invariants none
        no_unwind
    {
        self.parent.flag.store(false, Ordering::SeqCst);
    }
}

} // verus!
