//! The Reno controller.

use vstd::prelude::*;
use crate::rtt::RttEstimator;
use crate::time::Instant;
use crate::window;

verus! {

/// A Reno controller. All sizes are in bytes.
#[derive(Debug)]
pub struct Reno {
    /// The congestion window.
    pub cwnd: usize,
    /// The least window.
    pub min_cwnd: usize,
    /// Below this size the window is in slow start.
    pub ssthresh: usize,
    /// The largest window that the receiver has announced.
    pub rwnd: usize,
}

impl Reno {
    /// The state after new data of `len` bytes was acknowledged: in slow start the window grows
    /// by what was acknowledged, afterwards by one minimal window, and the threshold follows it.
    pub open spec fn acked(self, len: usize) -> Reno {
        if self.cwnd < self.ssthresh {
            Reno {
                cwnd: window::within((self.cwnd + len) as nat, self.rwnd, self.min_cwnd),
                ..self
            }
        } else {
            Reno {
                cwnd: window::within((self.cwnd + self.min_cwnd) as nat, self.rwnd, self.min_cwnd),
                ssthresh: self.cwnd,
                ..self
            }
        }
    }

    /// Half the window, but at least the minimal one.
    pub open spec fn halved(self) -> usize {
        window::larger(self.cwnd / 2, self.min_cwnd)
    }

    pub open spec fn dup_acked(self) -> Reno {
        Reno { ssthresh: self.halved(), ..self }
    }

    pub open spec fn timed_out(self) -> Reno {
        Reno { cwnd: self.halved(), ..self }
    }

    pub open spec fn with_mss(self, mss: usize) -> Reno {
        Reno { min_cwnd: mss, ..self }
    }

    pub open spec fn with_remote_window(self, remote_window: usize) -> Reno {
        Reno { rwnd: window::larger(self.rwnd, remote_window), ..self }
    }

    #[verifier::allow_in_spec]
    pub fn new() -> (r: Reno)
        ensures
            r == (Reno { cwnd: 2048, min_cwnd: 2048, ssthresh: usize::MAX, rwnd: 65536 }),
            r.in_bounds(),
        returns
            (Reno { cwnd: 2048, min_cwnd: 2048, ssthresh: usize::MAX, rwnd: 65536 }),
    {
        Reno { cwnd: 1024 * 2, min_cwnd: 1024 * 2, ssthresh: usize::MAX, rwnd: 64 * 1024 }
    }

    /// How many bytes may be in flight.
    #[verifier::allow_in_spec]
    pub fn window(&self) -> (r: usize)
        ensures
            r == self.cwnd,
        returns
            self.cwnd,
    {
        self.cwnd
    }

    /// New data of `len` bytes was acknowledged.
    pub fn on_ack(&mut self, _now: Instant, len: usize, _in_flight: usize, _rtt: &RttEstimator)
        ensures
            *final(self) == old(self).acked(len),
    {
        let by: usize = if self.cwnd < self.ssthresh {
            len
        } else {
            self.ssthresh = self.cwnd;
            self.min_cwnd
        };
        self.cwnd = window::grow(self.cwnd, by, self.rwnd, self.min_cwnd);
    }

    /// An acknowledgement came that acknowledges nothing new.
    pub fn on_dup_ack(&mut self, _now: Instant, _len: usize, _in_flight: usize)
        ensures
            *final(self) == old(self).dup_acked(),
    {
        self.ssthresh = window::max(self.cwnd / 2, self.min_cwnd);
    }

    /// The retransmission timer ran out.
    pub fn on_rto(&mut self, _now: Instant, _in_flight: usize)
        ensures
            *final(self) == old(self).timed_out(),
    {
        self.cwnd = window::max(self.cwnd / 2, self.min_cwnd);
    }

    pub fn set_mss(&mut self, mss: usize)
        ensures
            *final(self) == old(self).with_mss(mss),
    {
        self.min_cwnd = mss;
    }

    /// The receiver announced a window; the largest one counts.
    pub fn set_remote_window(&mut self, remote_window: usize)
        ensures
            *final(self) == old(self).with_remote_window(remote_window),
    {
        if self.rwnd < remote_window {
            self.rwnd = remote_window;
        }
    }
}

} // verus!
