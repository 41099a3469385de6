//! Diagnostics that are not recorded.
use vstd::prelude::*;

verus! {

/// A stretch of work that nothing is recorded of.
#[derive(Debug)]
pub struct NoopSpan;

impl NoopSpan {
    /// Does the work.
    pub fn in_scope<F, T>(&self, f: F) -> (r: T) where F: FnOnce() -> T
        requires
            call_requires(f, ()),
        ensures
            call_ensures(f, (), r),
    {
        f()
    }
}

} // verus!
