//! What a controller reads of the round-trip time.

use vstd::prelude::*;

verus! {

/// The sender's estimate of the round-trip time.
#[derive(Clone, Copy, Debug)]
pub struct RttEstimator {
    /// The smoothed round-trip time, in milliseconds.
    pub srtt: u32,
}

impl RttEstimator {
    #[verifier::allow_in_spec]
    pub fn new(srtt: u32) -> (r: RttEstimator)
        ensures
            r.srtt == srtt,
        returns
            (RttEstimator { srtt }),
    {
        RttEstimator { srtt }
    }

    /// The smoothed round-trip time, in milliseconds.
    #[verifier::allow_in_spec]
    pub fn smoothed_rtt(&self) -> (r: u32)
        ensures
            r == self.srtt,
        returns
            self.srtt,
    {
        self.srtt
    }
}

impl Default for RttEstimator {
    /// An estimator without a measurement.
    fn default() -> (r: RttEstimator)
        ensures
            r.srtt == 0,
    {
        RttEstimator { srtt: 0 }
    }
}

} // verus!
