use vstd::prelude::*;

use crate::embed::error::CalibrateError;

verus! {

/// Pairs skipped while scoring, by reason.
#[derive(Debug, Clone, PartialEq, Eq)]
pub struct SkipSummary {
    pub dim_mismatch: usize,
    pub nonfinite: usize,
}

impl Default for SkipSummary {
    fn default() -> (r: SkipSummary)
        ensures
            r.dim_mismatch == 0,
            r.nonfinite == 0,
    {
        SkipSummary { dim_mismatch: 0, nonfinite: 0 }
    }
}

impl SkipSummary {
    /// All skipped pairs.
    pub fn total(&self) -> (r: usize)
        requires
            self.dim_mismatch + self.nonfinite <= usize::MAX,
        ensures
            r == self.dim_mismatch + self.nonfinite,
    {
        self.dim_mismatch + self.nonfinite
    }
}

/// The number of histogram buckets: at least one.
#[derive(Copy, Clone, Debug, PartialEq, Eq)]
pub struct BucketCount(usize);

impl BucketCount {
    /// The number held.
    pub closed spec fn count(&self) -> usize {
        self.0
    }

    /// `n` buckets; `InvalidBuckets` when `n` is zero.
    pub fn new(n: usize) -> (r: Result<BucketCount, CalibrateError>)
        ensures
            n == 0 ==> r matches Err(CalibrateError::InvalidBuckets),
            n > 0 ==> (r matches Ok(b) && b.count() == n),
    {
        if n == 0 {
            Err(CalibrateError::InvalidBuckets)
        } else {
            Ok(BucketCount(n))
        }
    }

    /// The number of buckets.
    pub fn get(&self) -> (r: usize)
        ensures
            r == self.count(),
    {
        self.0
    }
}

/// Why calibration ended early.
#[derive(Debug, Clone, Copy, PartialEq, Eq)]
pub enum EarlyExit {
    EmptyStore,
}

} // verus!
