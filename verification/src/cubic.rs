//! The CUBIC controller.
//!
//! In congestion avoidance the window follows `W_cubic(t) = C (t - K)^3 + W_max`, a cubic curve
//! in the time since the last congestion event that is flat at the window `W_max` of that event.

use vstd::prelude::*;
use vstd::arithmetic::power2::*;
use crate::binary64::{monotone, Binary64};
use crate::cube_root;
use crate::rtt::RttEstimator;
use crate::time::Instant;
use crate::window;

verus! {

/// The multiplicative decrease factor, 0.7.
pub open spec fn beta() -> Binary64 {
    Binary64::rounded(false, 7, 10)
}

/// The scaling constant `C`, 0.4.
pub open spec fn curvature() -> Binary64 {
    Binary64::rounded(false, 4, 10)
}

/// The largest target, in windows: 1.5.
pub open spec fn target_limit() -> Binary64 {
    Binary64::rounded(false, 15, 10)
}

fn beta_cubic() -> (r: Binary64)
    ensures
        r == beta(),
        r.wf(),
{
    proof {
        lemma_constants();
    }
    Binary64::positive(0x16_6666_6666_6666, -53)
}

fn c_cubic() -> (r: Binary64)
    ensures
        r == curvature(),
        r.wf(),
{
    proof {
        lemma_constants();
    }
    Binary64::positive(0x19_9999_9999_999a, -54)
}

fn one_and_a_half() -> (r: Binary64)
    ensures
        r == target_limit(),
        r.wf(),
{
    proof {
        lemma_constants();
    }
    Binary64::positive(0x18_0000_0000_0000, -52)
}

/// The constants in binary.
pub proof fn lemma_constants()
    ensures
        beta() == Binary64::positive(0x16_6666_6666_6666, -53 as i32),
        curvature() == Binary64::positive(0x19_9999_9999_999a, -54 as i32),
        target_limit() == Binary64::positive(0x18_0000_0000_0000, -52 as i32),
        beta().wf(),
        curvature().wf(),
        target_limit().wf(),
        beta().num() == 0x16_6666_6666_6666,
        beta().den() == 0x20_0000_0000_0000,
        target_limit().num() == 0x18_0000_0000_0000,
        target_limit().den() == 0x10_0000_0000_0000,
        curvature().num() == 0x19_9999_9999_999a,
        curvature().den() == 0x40_0000_0000_0000,
{
    lemma2_to64();
    lemma2_to64_rest();
    monotone::lemma_literal(7, 10, 0x16_6666_6666_6666, 53);
    monotone::lemma_literal(4, 10, 0x19_9999_9999_999a, 54);
    monotone::lemma_literal(15, 10, 0x18_0000_0000_0000, 52);
}

pub const DEFAULT_MSS: usize = 1024;

pub const MICROS_PER_SECOND: u64 = 1_000_000;

pub open spec fn one_minus_beta() -> Binary64 {
    Binary64::of(1).difference(beta())
}

pub open spec fn one_plus_beta() -> Binary64 {
    Binary64::of(1).sum(beta())
}

/// `3 (1 - beta) / (1 + beta)`: the additive increase with which Reno's average window is met.
pub open spec fn alpha() -> Binary64 {
    Binary64::of(3).product(one_minus_beta()).quotient(one_plus_beta())
}

/// The scaling constant in bytes.
pub open spec fn scaling(min_cwnd: usize) -> Binary64 {
    curvature().product(Binary64::of(min_cwnd as nat))
}

/// `K`, the seconds until the curve is back at `w_max`: the cube root of
/// `w_max (1 - beta) / C`.
pub open spec fn curve_offset(w_max: usize, min_cwnd: usize) -> Binary64 {
    let cubed = Binary64::of(w_max as nat).product(one_minus_beta()).quotient(scaling(min_cwnd));
    match cube_root::root(cubed) {
        Some(k) => k,
        None => Binary64::zero(false),
    }
}

/// A CUBIC controller. All sizes are in bytes.
#[derive(Debug)]
pub struct Cubic {
    /// The window before the last congestion event: the plateau of the curve.
    pub w_max: usize,
    /// The congestion window.
    pub cwnd: usize,
    /// The least window.
    pub min_cwnd: usize,
    /// Below this size the window is in slow start.
    pub ssthresh: usize,
    /// The largest window that the receiver has announced.
    pub rwnd: usize,
    /// The offset of the curve, in seconds.
    pub k: Binary64,
    /// The window that Reno would have, advanced with each acknowledgement.
    pub w_est: Binary64,
    /// The window at the most recent congestion event.
    pub cwnd_prior: usize,
    /// When the curve's time began.
    pub recovery_start: Option<Instant>,
    pub in_fast_recovery: bool,
    /// Since when nothing has been in flight.
    pub idle_start: Option<Instant>,
    /// When the retransmission timer ran out, until something is acknowledged or lost.
    pub timed_out_at: Option<Instant>,
}

impl Cubic {
    pub open spec fn wf(self) -> bool {
        &&& self.k.wf()
        &&& self.w_est.wf()
    }

    /// How much of an acknowledgement of `len` bytes counts.
    pub open spec fn segment(self, len: usize) -> usize {
        window::smaller(len, self.min_cwnd)
    }

    /// `W_cubic` at a time in seconds.
    pub open spec fn curve(self, seconds: Binary64) -> Binary64 {
        let s = seconds.difference(self.k);
        scaling(self.min_cwnd).product(s.product(s.product(s))).sum(
            Binary64::of(self.w_max as nat),
        )
    }

    /// Whether there is an idle period to take out of the curve's time.
    pub open spec fn was_idle(self, now: Instant) -> bool {
        self.idle_start is Some && self.recovery_start is Some && now.micros
            >= self.idle_start->0.micros
    }

    /// The beginning of the curve's time, moved on by the length of the idle period.
    pub open spec fn moved_start(self, now: Instant) -> int {
        self.recovery_start->0.micros + (now.micros - self.idle_start->0.micros)
    }

    /// The idle period's length and the moved beginning are points in time.
    pub open spec fn idle_fits(self, now: Instant) -> bool {
        self.was_idle(now) ==> now.micros - self.idle_start->0.micros <= i64::MAX
            && self.moved_start(now) <= i64::MAX
    }

    /// The state once the idle period, if there was one, has been taken out of the curve's time.
    pub open spec fn absorbed(self, now: Instant) -> Cubic {
        Cubic {
            recovery_start: if self.was_idle(now) {
                Some(Instant { micros: self.moved_start(now) as i64 })
            } else {
                self.recovery_start
            },
            idle_start: None,
            ..self
        }
    }

    /// The state once an acknowledgement has been noted that leaves `in_flight` bytes in flight.
    pub open spec fn noted(self, now: Instant, in_flight: usize) -> Cubic {
        Cubic {
            idle_start: if in_flight == 0 {
                Some(now)
            } else {
                None
            },
            timed_out_at: None,
            ..self.absorbed(now)
        }
    }

    /// Congestion avoidance without a congestion event starts the curve at its plateau.
    pub open spec fn begun(self, now: Instant) -> Cubic {
        if self.recovery_start is Some {
            self
        } else {
            Cubic {
                w_max: self.cwnd,
                k: Binary64::zero(false),
                w_est: Binary64::of(self.cwnd as nat),
                recovery_start: Some(now),
                ..self
            }
        }
    }

    /// The curve's time, in microseconds.
    pub open spec fn elapsed(self, now: Instant) -> int {
        now.micros - self.recovery_start->0.micros
    }

    /// The Reno-friendly window after a further segment: `W_est + alpha * segment / cwnd` in
    /// units of `min_cwnd`, where `alpha` is 1 as soon as the window of the last congestion
    /// event is reached.
    pub open spec fn friendly(self, segment: usize) -> Binary64 {
        let a = if Binary64::of(self.cwnd_prior as nat).at_most(self.w_est) {
            Binary64::of(1)
        } else {
            alpha()
        };
        self.w_est.sum(
            a.product(Binary64::of(self.min_cwnd as nat)).product(
                Binary64::of(segment as nat),
            ).quotient(Binary64::of(self.cwnd as nat)),
        )
    }

    /// The curve at `elapsed` microseconds.
    pub open spec fn curve_now(self, elapsed: int) -> Binary64 {
        self.curve(
            Binary64::of(elapsed as nat).quotient(Binary64::of(MICROS_PER_SECOND as nat)),
        )
    }

    /// The curve one round trip, or a millisecond if that is longer, after `elapsed`
    /// microseconds, but no more than 1.5 windows.
    pub open spec fn target(self, elapsed: int, rtt: RttEstimator) -> Binary64 {
        let srtt = if rtt.srtt == 0 {
            1000
        } else {
            rtt.srtt as nat * 1000
        };
        let seconds = Binary64::of(elapsed as nat).sum(Binary64::of(srtt)).quotient(
            Binary64::of(MICROS_PER_SECOND as nat),
        );
        self.curve(seconds).lesser(target_limit().product(Binary64::of(self.cwnd as nat)))
    }

    /// By how much the target exceeds the window.
    pub open spec fn shortfall(self, elapsed: int, rtt: RttEstimator) -> nat {
        let target = self.target(elapsed, rtt).truncated();
        if target < self.cwnd {
            0
        } else {
            (target - self.cwnd) as nat
        }
    }

    /// The growth towards the target: its share for one segment of the window.
    pub open spec fn increment(self, elapsed: int, segment: usize, rtt: RttEstimator) -> nat {
        self.shortfall(elapsed, rtt) * segment as nat / self.cwnd as nat
    }

    /// Whether the Reno-friendly window is ahead of the curve.
    pub open spec fn is_friendly(self, elapsed: int, segment: usize) -> bool {
        self.curve_now(elapsed).less(self.friendly(segment))
    }

    /// The state after a segment in congestion avoidance: the window takes up the Reno-friendly
    /// one where that is ahead of the curve, and moves towards the target elsewhere. Before the
    /// beginning of the curve's time nothing happens.
    pub open spec fn avoided(self, now: Instant, segment: usize, rtt: RttEstimator) -> Cubic {
        let t = self.elapsed(now);
        let w_est = self.friendly(segment);
        if t < 0 {
            self
        } else if self.is_friendly(t, segment) {
            Cubic {
                w_est,
                cwnd: window::within(w_est.truncated() as nat, self.rwnd, self.min_cwnd),
                ..self
            }
        } else {
            Cubic {
                w_est,
                cwnd: window::within(
                    self.cwnd as nat + self.increment(t, segment, rtt),
                    self.rwnd,
                    self.min_cwnd,
                ),
                ..self
            }
        }
    }

    /// The curve's time is a number of microseconds, and the growth towards the target can be
    /// computed.
    pub open spec fn avoidance_fits(
        self,
        now: Instant,
        segment: usize,
        rtt: RttEstimator,
    ) -> bool {
        let t = self.elapsed(now);
        &&& i64::MIN <= t <= i64::MAX
        &&& t >= 0 && !self.is_friendly(t, segment) ==> {
            &&& self.cwnd > 0
            &&& self.shortfall(t, rtt) * segment as nat <= usize::MAX
            &&& self.cwnd + self.increment(t, segment, rtt) <= usize::MAX
        }
    }

    /// An acknowledgement can be taken in: its time is within reach of the times on record, and
    /// the sizes are within `usize`.
    pub open spec fn ack_fits(
        self,
        now: Instant,
        len: usize,
        in_flight: usize,
        rtt: RttEstimator,
    ) -> bool {
        &&& self.idle_fits(now)
        &&& !self.in_fast_recovery && self.cwnd >= self.ssthresh ==> self.noted(
            now,
            in_flight,
        ).begun(now).avoidance_fits(now, self.segment(len), rtt)
    }

    /// The state after new data of `len` bytes was acknowledged.
    pub open spec fn acked(
        self,
        now: Instant,
        len: usize,
        in_flight: usize,
        rtt: RttEstimator,
    ) -> Cubic {
        let noted = self.noted(now, in_flight);
        if self.in_fast_recovery {
            Cubic {
                in_fast_recovery: false,
                cwnd: self.ssthresh,
                w_est: Binary64::of(self.ssthresh as nat),
                ..noted
            }
        } else if self.cwnd < self.ssthresh {
            Cubic {
                cwnd: window::within(
                    (self.cwnd + self.segment(len)) as nat,
                    self.rwnd,
                    self.min_cwnd,
                ),
                ..noted
            }
        } else {
            noted.begun(now).avoided(now, self.segment(len), rtt)
        }
    }

    /// The state after an acknowledgement of nothing new: in fast recovery the window is
    /// inflated by the `len` bytes that have left the network.
    pub open spec fn dup_acked(self, len: usize) -> Cubic {
        if self.in_fast_recovery {
            Cubic {
                cwnd: window::within((self.cwnd + len) as nat, self.rwnd, self.min_cwnd),
                ..self
            }
        } else {
            self
        }
    }

    /// The plateau of the next curve: the present window, or, where that fell short of the
    /// plateau before, `(1 + beta) / 2` of it, which leaves room for a new flow (fast
    /// convergence).
    pub open spec fn next_plateau(self) -> usize {
        if self.cwnd < self.w_max {
            Binary64::of(self.cwnd as nat).product(one_plus_beta()).quotient(
                Binary64::of(2),
            ).truncated()
        } else {
            self.cwnd
        }
    }

    /// `beta` of what is in flight, but at least two minimal windows.
    pub open spec fn decreased(self, in_flight: usize) -> usize {
        window::larger(
            Binary64::of(in_flight as nat).product(beta()).truncated(),
            (2 * self.min_cwnd) as usize,
        )
    }

    /// The threshold inflated by three segments that have left the network.
    pub open spec fn inflated(self, ssthresh: usize) -> usize {
        let size = window::smaller(ssthresh, self.rwnd) + 3 * self.min_cwnd;
        if size > usize::MAX {
            usize::MAX
        } else {
            size as usize
        }
    }

    /// The state after a loss was noticed by duplicate acknowledgements. Only the first one of
    /// a fast recovery cuts the window.
    pub open spec fn lost(self, now: Instant, in_flight: usize) -> Cubic {
        if self.in_fast_recovery {
            Cubic { idle_start: None, ..self }
        } else {
            let w_max = self.next_plateau();
            let ssthresh = self.decreased(in_flight);
            Cubic {
                w_max,
                cwnd: self.inflated(ssthresh),
                ssthresh,
                k: curve_offset(w_max, self.min_cwnd),
                cwnd_prior: self.cwnd,
                recovery_start: Some(now),
                in_fast_recovery: true,
                idle_start: None,
                timed_out_at: None,
                ..self
            }
        }
    }

    /// The state after the retransmission timer ran out: slow start from the least window up to
    /// half of what was in flight, but at least two minimal windows. `beta` is for losses that
    /// duplicate acknowledgements report. The plateau and the offset wait for the next congestion
    /// avoidance.
    pub open spec fn timed_out(self, now: Instant, in_flight: usize) -> Cubic {
        Cubic {
            ssthresh: window::larger(in_flight / 2, (2 * self.min_cwnd) as usize),
            cwnd: self.min_cwnd,
            cwnd_prior: in_flight,
            recovery_start: None,
            in_fast_recovery: false,
            idle_start: None,
            timed_out_at: Some(now),
            ..self
        }
    }

    /// The state when a segment is about to be sent. As long as nothing has been acknowledged
    /// since a timeout, the window takes up the curve in the time since then, but no more than
    /// slow start may reach. Elsewhere it is left to acknowledgements.
    pub open spec fn prepared(self, now: Instant) -> Cubic {
        if self.timed_out_at is Some && now.micros >= self.timed_out_at->0.micros {
            let t = now.micros - self.timed_out_at->0.micros;
            let reach = window::smaller(self.curve_now(t).truncated(), self.ssthresh);
            Cubic {
                cwnd: window::within(
                    window::larger(self.cwnd, reach) as nat,
                    self.rwnd,
                    self.min_cwnd,
                ),
                ..self
            }
        } else {
            self
        }
    }

    pub open spec fn with_mss(self, mss: usize) -> Cubic {
        Cubic { min_cwnd: mss, k: curve_offset(self.w_max, mss), ..self }
    }

    pub open spec fn with_remote_window(self, remote_window: usize) -> Cubic {
        Cubic { rwnd: window::larger(self.rwnd, remote_window), ..self }
    }

    #[verifier::allow_in_spec]
    pub fn new() -> (r: Cubic)
        ensures
            r == (Cubic {
                w_max: 2048,
                cwnd: 2048,
                min_cwnd: 2048,
                ssthresh: usize::MAX,
                rwnd: 65536,
                k: curve_offset(2048, 2048),
                w_est: Binary64::of(2048),
                cwnd_prior: 2048,
                recovery_start: None,
                in_fast_recovery: false,
                idle_start: None,
                timed_out_at: None,
            }),
            r.wf(),
            r.above_floor(),
            r.below_ceiling(),
            r.offset_is_current(),
            r.timeout_stands_alone(),
            r.in_time_order(Instant { micros: 0 }),
        returns
            (Cubic {
                w_max: 2048,
                cwnd: 2048,
                min_cwnd: 2048,
                ssthresh: usize::MAX,
                rwnd: 65536,
                k: curve_offset(2048, 2048),
                w_est: Binary64::of(2048),
                cwnd_prior: 2048,
                recovery_start: None,
                in_fast_recovery: false,
                idle_start: None,
                timed_out_at: None,
            }),
    {
        let mut cubic = Cubic {
            w_max: DEFAULT_MSS * 2,
            cwnd: DEFAULT_MSS * 2,
            min_cwnd: DEFAULT_MSS * 2,
            ssthresh: usize::MAX,
            rwnd: 64 * DEFAULT_MSS,
            k: Binary64::zero(false),
            w_est: Binary64::from_u64((DEFAULT_MSS * 2) as u64),
            cwnd_prior: DEFAULT_MSS * 2,
            recovery_start: None,
            in_fast_recovery: false,
            idle_start: None,
            timed_out_at: None,
        };
        cubic.recompute_k();
        cubic
    }

    /// Sets the offset of the curve, which depends on `w_max` and `min_cwnd` alone.
    pub fn recompute_k(&mut self)
        ensures
            *final(self) == (Cubic {
                k: curve_offset(old(self).w_max, old(self).min_cwnd),
                ..*old(self)
            }),
            final(self).k.wf(),
    {
        let c_as_bytes = c_cubic().mul(Binary64::from_u64(self.min_cwnd as u64));
        let rise = Binary64::from_u64(1).sub(beta_cubic());
        let k3 = Binary64::from_u64(self.w_max as u64).mul(rise).div(c_as_bytes);
        self.k = match cube_root::cube_root(k3) {
            Some(k) => k,
            None => Binary64::zero(false),
        };
    }

    /// Takes an idle period out of the curve's time.
    pub fn absorb_idle(&mut self, now: Instant)
        requires
            old(self).idle_fits(now),
        ensures
            *final(self) == old(self).absorbed(now),
    {
        if let (Some(idle), Some(start)) = (self.idle_start, self.recovery_start) {
            if now.micros >= idle.micros {
                self.recovery_start = Some(
                    Instant { micros: start.micros + (now.micros - idle.micros) },
                );
            }
        }
        self.idle_start = None;
    }

    /// How many bytes may be in flight.
    #[verifier::allow_in_spec]
    pub fn window(&self) -> (r: usize)
        ensures
            r == self.cwnd,
        returns
            self.cwnd,
    {
        self.cwnd
    }

    /// New data of `len` bytes was acknowledged; `in_flight` bytes remain in flight.
    pub fn on_ack(&mut self, now: Instant, len: usize, in_flight: usize, rtt: &RttEstimator)
        requires
            old(self).wf(),
            old(self).ack_fits(now, len, in_flight, *rtt),
        ensures
            *final(self) == old(self).acked(now, len, in_flight, *rtt),
            final(self).wf(),
    {
        let segment: usize = window::min(len, self.min_cwnd);
        self.absorb_idle(now);
        if in_flight == 0 {
            self.idle_start = Some(now);
        }
        self.timed_out_at = None;
        if self.in_fast_recovery {
            // The first acknowledgement of new data ends fast recovery and deflates the window.
            self.in_fast_recovery = false;
            self.cwnd = self.ssthresh;
            self.w_est = Binary64::from_u64(self.cwnd as u64);
        } else if self.cwnd < self.ssthresh {
            self.cwnd = window::grow(self.cwnd, segment, self.rwnd, self.min_cwnd);
        } else {
            self.avoid_congestion(now, segment, rtt);
        }
    }

    fn avoid_congestion(&mut self, now: Instant, segment: usize, rtt: &RttEstimator)
        requires
            old(self).wf(),
            old(self).begun(now).avoidance_fits(now, segment, *rtt),
        ensures
            *final(self) == old(self).begun(now).avoided(now, segment, *rtt),
            final(self).wf(),
    {
        let recovery_start: Instant = match self.recovery_start {
            Some(t) => t,
            None => {
                self.w_max = self.cwnd;
                self.k = Binary64::zero(false);
                self.w_est = Binary64::from_u64(self.cwnd as u64);
                self.recovery_start = Some(now);
                now
            },
        };
        let t: i64 = now.total_micros() - recovery_start.total_micros();
        if t < 0 {
            return;
        }
        let million = Binary64::from_u64(MICROS_PER_SECOND);
        let elapsed = Binary64::from_u64(t as u64);
        let w_cubic = self.w_cubic(elapsed.div(million));
        let w_est = self.next_w_est(segment);
        self.w_est = w_est;
        if w_cubic.lt(w_est) {
            self.cwnd = window::grow(0, w_est.to_usize(), self.rwnd, self.min_cwnd);
            return;
        }
        let srtt: u64 = if rtt.smoothed_rtt() == 0 {
            1000
        } else {
            rtt.smoothed_rtt() as u64 * 1000
        };
        let t_ahead = elapsed.add(Binary64::from_u64(srtt)).div(million);
        let limit = one_and_a_half().mul(Binary64::from_u64(self.cwnd as u64));
        let target: usize = self.w_cubic(t_ahead).min(limit).to_usize();
        let shortfall: usize = target.saturating_sub(self.cwnd);
        let increment: usize = shortfall * segment / self.cwnd;
        self.cwnd = window::grow(self.cwnd, increment, self.rwnd, self.min_cwnd);
    }

    /// The curve at a time in seconds.
    fn w_cubic(&self, seconds: Binary64) -> (r: Binary64)
        requires
            self.wf(),
            seconds.wf(),
        ensures
            r == self.curve(seconds),
            r.wf(),
    {
        let c_as_bytes = c_cubic().mul(Binary64::from_u64(self.min_cwnd as u64));
        let s = seconds.sub(self.k);
        c_as_bytes.mul(s.mul(s.mul(s))).add(Binary64::from_u64(self.w_max as u64))
    }

    /// The Reno-friendly window after a further segment.
    fn next_w_est(&self, segment: usize) -> (r: Binary64)
        requires
            self.wf(),
        ensures
            r == self.friendly(segment),
            r.wf(),
    {
        let one = Binary64::from_u64(1);
        let alpha = if Binary64::from_u64(self.cwnd_prior as u64).le(self.w_est) {
            one
        } else {
            Binary64::from_u64(3).mul(one.sub(beta_cubic())).div(one.add(beta_cubic()))
        };
        let gain = alpha.mul(Binary64::from_u64(self.min_cwnd as u64)).mul(
            Binary64::from_u64(segment as u64),
        ).div(Binary64::from_u64(self.cwnd as u64));
        self.w_est.add(gain)
    }

    /// An acknowledgement came that acknowledges nothing new.
    pub fn on_dup_ack(&mut self, _now: Instant, len: usize, _in_flight: usize)
        ensures
            *final(self) == old(self).dup_acked(len),
            old(self).wf() ==> final(self).wf(),
    {
        if self.in_fast_recovery {
            self.cwnd = window::grow(self.cwnd, len, self.rwnd, self.min_cwnd);
        }
    }

    /// A segment is about to be sent: after a timeout the window follows the curve's time.
    pub fn pre_transmit(&mut self, now: Instant)
        requires
            old(self).wf(),
        ensures
            *final(self) == old(self).prepared(now),
            final(self).wf(),
    {
        let start: Instant = match self.timed_out_at {
            Some(start) => start,
            None => {
                return;
            },
        };
        if now.micros < start.micros {
            return;
        }
        let t: u64 = (now.micros as i128 - start.micros as i128) as u64;
        let seconds = Binary64::from_u64(t).div(Binary64::from_u64(MICROS_PER_SECOND));
        let reach: usize = window::min(self.w_cubic(seconds).to_usize(), self.ssthresh);
        let size: usize = window::max(self.cwnd, reach);
        self.cwnd = window::max(window::min(size, self.rwnd), self.min_cwnd);
    }

    /// A segment was sent: an idle period, if there was one, is over.
    pub fn post_transmit(&mut self, now: Instant, _len: usize)
        requires
            old(self).idle_fits(now),
        ensures
            *final(self) == old(self).absorbed(now),
            old(self).wf() ==> final(self).wf(),
    {
        self.absorb_idle(now);
    }

    /// A loss was noticed by duplicate acknowledgements.
    pub fn on_loss(&mut self, now: Instant, in_flight: usize)
        requires
            old(self).wf(),
            !old(self).in_fast_recovery ==> 3 * old(self).min_cwnd <= usize::MAX,
        ensures
            *final(self) == old(self).lost(now, in_flight),
            final(self).wf(),
    {
        self.idle_start = None;
        if !self.in_fast_recovery {
            self.cwnd_prior = self.cwnd;
            self.w_max = if self.cwnd < self.w_max {
                let whole = Binary64::from_u64(1).add(beta_cubic());
                Binary64::from_u64(self.cwnd as u64).mul(whole).div(
                    Binary64::from_u64(2),
                ).to_usize()
            } else {
                self.cwnd
            };
            let part: usize = Binary64::from_u64(in_flight as u64).mul(beta_cubic()).to_usize();
            self.ssthresh = window::max(part, 2 * self.min_cwnd);
            self.cwnd = window::min(self.ssthresh, self.rwnd).saturating_add(3 * self.min_cwnd);
            self.recovery_start = Some(now);
            self.in_fast_recovery = true;
            self.timed_out_at = None;
            self.recompute_k();
        }
    }

    /// The retransmission timer ran out with `in_flight` bytes in flight.
    pub fn on_rto(&mut self, now: Instant, in_flight: usize)
        requires
            2 * old(self).min_cwnd <= usize::MAX,
        ensures
            *final(self) == old(self).timed_out(now, in_flight),
            old(self).wf() ==> final(self).wf(),
    {
        self.ssthresh = window::max(in_flight / 2, 2 * self.min_cwnd);
        self.cwnd = self.min_cwnd;
        self.cwnd_prior = in_flight;
        self.recovery_start = None;
        self.in_fast_recovery = false;
        self.idle_start = None;
        self.timed_out_at = Some(now);
    }

    pub fn set_mss(&mut self, mss: usize)
        ensures
            *final(self) == old(self).with_mss(mss),
            old(self).wf() ==> final(self).wf(),
    {
        self.min_cwnd = mss;
        self.recompute_k();
    }

    /// The receiver announced a window; the largest one counts.
    pub fn set_remote_window(&mut self, remote_window: usize)
        ensures
            *final(self) == old(self).with_remote_window(remote_window),
            old(self).wf() ==> final(self).wf(),
    {
        if self.rwnd < remote_window {
            self.rwnd = remote_window;
        }
    }
}

} // verus!
