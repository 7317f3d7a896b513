//! How much work lies ahead, as the length of a progress bar.

use vstd::prelude::*;

verus! {

/// A value that says how long a progress bar is to be.
pub trait MaxProgress: Sized {
    /// The length of the bar, as a number.
    spec fn spec_max_progress(self) -> u64;

    /// The length of the bar.
    fn max_progress(self) -> (r: u64)
        ensures
            r == self.spec_max_progress(),
    ;
}

impl MaxProgress for u64 {
    open spec fn spec_max_progress(self) -> u64 {
        self
    }

    fn max_progress(self) -> (r: u64) {
        self
    }
}

impl MaxProgress for usize {
    open spec fn spec_max_progress(self) -> u64 {
        self as u64
    }

    fn max_progress(self) -> (r: u64) {
        self as u64
    }
}

} // verus!
