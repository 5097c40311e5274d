//! Points in time.

use vstd::prelude::*;

verus! {

/// A point in time, counted in microseconds from an origin of the caller's choice.
#[derive(Clone, Copy, Debug)]
pub struct Instant {
    pub micros: i64,
}

impl Instant {
    #[verifier::allow_in_spec]
    pub fn from_micros(micros: i64) -> (r: Instant)
        ensures
            r.micros == micros,
        returns
            (Instant { micros }),
    {
        Instant { micros }
    }

    #[verifier::allow_in_spec]
    pub fn from_millis(millis: i64) -> (r: Instant)
        requires
            i64::MIN <= millis * 1000 <= i64::MAX,
        ensures
            r.micros == millis * 1000,
        returns
            (Instant { micros: (millis * 1000) as i64 }),
    {
        Instant { micros: millis * 1000 }
    }

    #[verifier::allow_in_spec]
    pub fn total_micros(&self) -> (r: i64)
        ensures
            r == self.micros,
        returns
            self.micros,
    {
        self.micros
    }
}

} // verus!
