//! The scan-progress counter: how many candidates have been checked,
//! monotonically incremented and read once at the end for the report.

use vstd::prelude::*;

verus! {

/// Counts the candidates checked over a whole scan.
pub struct ScanCounters {
    checked: u64,
}

impl ScanCounters {
    /// How many candidates have been checked so far.
    pub closed spec fn spec_checked(&self) -> u64 {
        self.checked
    }

    /// A fresh counter, at zero.
    pub fn new() -> (r: ScanCounters)
        ensures
            r.spec_checked() == 0,
    {
        ScanCounters { checked: 0 }
    }

    /// Records `n` more checked candidates.
    pub fn add(&mut self, n: u64)
        requires
            old(self).spec_checked() + n <= u64::MAX,
        ensures
            final(self).spec_checked() == old(self).spec_checked() + n,
    {
        self.checked = self.checked + n;
    }

    /// The total number of candidates checked.
    pub fn total(&self) -> (r: u64)
        ensures
            r == self.spec_checked(),
    {
        self.checked
    }
}

} // verus!
