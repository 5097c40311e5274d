//! Laws of the CUBIC controller.

use vstd::prelude::*;
use vstd::arithmetic::mul::*;
use vstd::arithmetic::power2::*;
use crate::binary64::{accuracy, Binary64, LIMIT};
use crate::cubic;
use crate::cubic::Cubic;
use crate::dyadic;
use crate::rtt::RttEstimator;
use crate::time::Instant;
use crate::window;
use super::cube_root;

verus! {

/// Something that a CUBIC controller is told, other than a new minimal window.
pub enum Signal {
    Ack { now: Instant, len: usize, in_flight: usize, rtt: RttEstimator },
    DupAck { len: usize },
    Loss { now: Instant, in_flight: usize },
    Timeout { now: Instant, in_flight: usize },
    Prepare { now: Instant },
    Transmit { now: Instant },
    RemoteWindow { size: usize },
}

impl Signal {
    /// When the signal came; `last` for one that carries no time.
    pub open spec fn time(self, last: Instant) -> Instant {
        match self {
            Signal::Ack { now, .. } => now,
            Signal::Loss { now, .. } => now,
            Signal::Timeout { now, .. } => now,
            Signal::Prepare { now } => now,
            Signal::Transmit { now } => now,
            _ => last,
        }
    }
}

impl Cubic {
    pub open spec fn after(self, signal: Signal) -> Cubic {
        match signal {
            Signal::Ack { now, len, in_flight, rtt } => self.acked(now, len, in_flight, rtt),
            Signal::DupAck { len } => self.dup_acked(len),
            Signal::Loss { now, in_flight } => self.lost(now, in_flight),
            Signal::Timeout { now, in_flight } => self.timed_out(now, in_flight),
            Signal::Prepare { now } => self.prepared(now),
            Signal::Transmit { now } => self.absorbed(now),
            Signal::RemoteWindow { size } => self.with_remote_window(size),
        }
    }

    pub open spec fn after_all(self, history: Seq<Signal>) -> Cubic
        decreases history.len(),
    {
        if history.len() == 0 {
            self
        } else {
            self.after_all(history.drop_last()).after(history.last())
        }
    }

    /// At each loss of the history, no more was in flight than the receiver had announced.
    pub open spec fn respects_receiver(self, history: Seq<Signal>) -> bool
        decreases history.len(),
    {
        history.len() > 0 ==> {
            &&& self.respects_receiver(history.drop_last())
            &&& history.last() matches Signal::Loss { in_flight, .. } ==> in_flight
                <= self.after_all(history.drop_last()).rwnd
        }
    }

    /// Nothing in the history ends a fast recovery: no new data is acknowledged, and no timer
    /// runs out.
    pub open spec fn leaves_recovery_on(history: Seq<Signal>) -> bool {
        forall|i: int|
            0 <= i < history.len() ==> !(#[trigger] history[i] is Ack) && !(history[i] is Timeout)
    }

    /// The window, and the one that follows a recovery, are at least the minimal window.
    pub open spec fn above_floor(self) -> bool {
        &&& self.min_cwnd <= self.cwnd
        &&& self.min_cwnd <= self.ssthresh
    }

    /// What the receiver has announced, or two minimal windows where that is more.
    pub open spec fn ceiling(self) -> int {
        if self.rwnd < 2 * self.min_cwnd {
            2 * self.min_cwnd
        } else {
            self.rwnd as int
        }
    }

    /// The window is at most the ceiling; in fast recovery it may be inflated by three minimal
    /// windows, and it is the one that follows the recovery that is at most the ceiling.
    pub open spec fn below_ceiling(self) -> bool {
        if self.in_fast_recovery {
            &&& self.cwnd <= self.ceiling() + 3 * self.min_cwnd
            &&& self.ssthresh <= self.ceiling()
        } else {
            self.cwnd <= self.ceiling()
        }
    }

    /// No time on record is before 0 or after `last`, and nothing was idle before the curve's
    /// time began.
    pub open spec fn in_time_order(self, last: Instant) -> bool {
        &&& 0 <= last.micros
        &&& self.recovery_start matches Some(start) ==> 0 <= start.micros <= last.micros
        &&& self.idle_start matches Some(idle) ==> 0 <= idle.micros <= last.micros
        &&& self.timed_out_at matches Some(at) ==> 0 <= at.micros <= last.micros
        &&& self.recovery_start is Some && self.idle_start is Some
            ==> self.recovery_start->0.micros <= self.idle_start->0.micros
    }

    /// A timeout is on record only where there is no curve to follow.
    pub open spec fn timeout_stands_alone(self) -> bool {
        self.timed_out_at is Some ==> self.recovery_start is None && !self.in_fast_recovery
    }

    /// The offset is that of the present plateau and minimal window, or 0 for a curve that
    /// started at its plateau.
    pub open spec fn offset_is_current(self) -> bool {
        self.k == cubic::curve_offset(self.w_max, self.min_cwnd) || self.k == Binary64::zero(false)
    }
}

/// Congestion avoidance leaves the bounds alone, and the window where it is or within them.
proof fn lemma_avoidance(c: Cubic, now: Instant, segment: usize, rtt: RttEstimator)
    ensures
        ({
            let d = c.avoided(now, segment, rtt);
            &&& d.min_cwnd == c.min_cwnd
            &&& d.rwnd == c.rwnd
            &&& d.ssthresh == c.ssthresh
            &&& d.in_fast_recovery == c.in_fast_recovery
            &&& d.k == c.k
            &&& d.w_max == c.w_max
            &&& d.recovery_start == c.recovery_start
            &&& d.idle_start == c.idle_start
            &&& d.timed_out_at == c.timed_out_at
            &&& d.cwnd == c.cwnd || {
                &&& d.min_cwnd <= d.cwnd
                &&& d.cwnd <= d.rwnd || d.cwnd <= d.min_cwnd
            }
        }),
{
}

proof fn lemma_ack(c: Cubic, now: Instant, len: usize, in_flight: usize, rtt: RttEstimator)
    ensures
        ({
            let d = c.acked(now, len, in_flight, rtt);
            &&& d.min_cwnd == c.min_cwnd
            &&& d.rwnd == c.rwnd
            &&& d.ssthresh == c.ssthresh
            &&& !d.in_fast_recovery
            &&& c.offset_is_current() ==> d.offset_is_current()
            &&& if c.in_fast_recovery {
                d.cwnd == c.ssthresh
            } else {
                d.cwnd == c.cwnd || {
                    &&& d.min_cwnd <= d.cwnd
                    &&& d.cwnd <= d.rwnd || d.cwnd <= d.min_cwnd
                }
            }
        }),
{
    lemma_avoidance(c.noted(now, in_flight).begun(now), now, c.segment(len), rtt);
}

proof fn lemma_preparing(c: Cubic, now: Instant)
    ensures
        ({
            let d = c.prepared(now);
            &&& d == (Cubic { cwnd: d.cwnd, ..c })
            &&& d.cwnd == c.cwnd || {
                &&& d.min_cwnd <= d.cwnd
                &&& d.cwnd <= d.rwnd || d.cwnd <= d.min_cwnd
            }
        }),
{
}

proof fn lemma_loss(c: Cubic, now: Instant, in_flight: usize)
    requires
        3 * c.min_cwnd <= usize::MAX,
        !c.in_fast_recovery,
    ensures
        ({
            let d = c.lost(now, in_flight);
            &&& d.min_cwnd == c.min_cwnd
            &&& d.rwnd == c.rwnd
            &&& d.in_fast_recovery
            &&& d.ssthresh == c.decreased(in_flight)
            &&& 2 * c.min_cwnd <= d.ssthresh
            &&& d.min_cwnd <= d.cwnd
            &&& d.cwnd <= d.ssthresh + 3 * c.min_cwnd
            &&& d.cwnd <= d.rwnd + 3 * c.min_cwnd
        }),
{
}

proof fn lemma_loss_sets_offset(c: Cubic, now: Instant, in_flight: usize)
    requires
        c.offset_is_current(),
    ensures
        c.lost(now, in_flight).offset_is_current(),
{
}

/// Whatever a controller is told, its window never falls below the minimal window.
pub proof fn law_window_stays_above_floor(c: Cubic, history: Seq<Signal>)
    requires
        c.above_floor(),
        3 * c.min_cwnd <= usize::MAX,
    ensures
        c.after_all(history).above_floor(),
        c.after_all(history).min_cwnd == c.min_cwnd,
        c.after_all(history).rwnd >= c.rwnd,
    decreases history.len(),
{
    if history.len() > 0 {
        law_window_stays_above_floor(c, history.drop_last());
        let d = c.after_all(history.drop_last());
        assert(c.after_all(history) == d.after(history.last()));
        match history.last() {
            Signal::Ack { now, len, in_flight, rtt } => {
                lemma_ack(d, now, len, in_flight, rtt);
            },
            Signal::Loss { now, in_flight } => {
                if !d.in_fast_recovery {
                    lemma_loss(d, now, in_flight);
                }
            },
            _ => {},
        }
    }
}

/// As long as no loss finds more in flight than the receiver had announced, the window never
/// exceeds what the receiver announced or two minimal windows; in fast recovery it may be
/// inflated by three more.
pub proof fn law_window_stays_below_ceiling(c: Cubic, history: Seq<Signal>)
    requires
        c.below_ceiling(),
        3 * c.min_cwnd <= usize::MAX,
        c.respects_receiver(history),
    ensures
        c.after_all(history).below_ceiling(),
        c.after_all(history).min_cwnd == c.min_cwnd,
    decreases history.len(),
{
    if history.len() > 0 {
        law_window_stays_below_ceiling(c, history.drop_last());
        let d = c.after_all(history.drop_last());
        assert(c.after_all(history) == d.after(history.last()));
        match history.last() {
            Signal::Ack { now, len, in_flight, rtt } => {
                lemma_ack(d, now, len, in_flight, rtt);
            },
            Signal::Loss { now, in_flight } => {
                if !d.in_fast_recovery {
                    lemma_loss(d, now, in_flight);
                    law_decrease_is_at_most_the_flight(d, in_flight);
                }
            },
            Signal::Prepare { now } => {
                lemma_preparing(d, now);
            },
            _ => {},
        }
    }
}

/// Where time does not run backwards, the times on record stay in order.
pub proof fn law_times_stay_in_order(c: Cubic, last: Instant, signal: Signal)
    requires
        c.in_time_order(last),
        last.micros <= signal.time(last).micros,
    ensures
        c.after(signal).in_time_order(signal.time(last)),
{
    if let Signal::Ack { now, len, in_flight, rtt } = signal {
        lemma_avoidance(c.noted(now, in_flight).begun(now), now, c.segment(len), rtt);
    }
}

/// Where time does not run backwards and the window is not 0, an acknowledgement can be taken in
/// if the window times the segment, and the window and the segment together, are sizes. An idle
/// period can always be taken out.
pub proof fn law_ack_fits_in_time_order(
    c: Cubic,
    last: Instant,
    now: Instant,
    len: usize,
    in_flight: usize,
    rtt: RttEstimator,
)
    requires
        c.in_time_order(last),
        last.micros <= now.micros,
        c.cwnd > 0,
        c.cwnd * c.segment(len) <= usize::MAX,
        c.cwnd + c.segment(len) <= usize::MAX,
    ensures
        c.idle_fits(now),
        c.ack_fits(now, len, in_flight, rtt),
{
    law_avoidance_fits(c.noted(now, in_flight).begun(now), now, c.segment(len), rtt);
}

/// The offset of the curve depends on the plateau and the minimal window alone, in every state.
pub proof fn law_offset_stays_current(c: Cubic, history: Seq<Signal>)
    requires
        c.offset_is_current(),
    ensures
        c.after_all(history).offset_is_current(),
    decreases history.len(),
{
    if history.len() > 0 {
        law_offset_stays_current(c, history.drop_last());
        let d = c.after_all(history.drop_last());
        assert(c.after_all(history) == d.after(history.last()));
        match history.last() {
            Signal::Ack { now, len, in_flight, rtt } => {
                lemma_ack(d, now, len, in_flight, rtt);
            },
            Signal::Loss { now, in_flight } => {
                lemma_loss_sets_offset(d, now, in_flight);
            },
            _ => {},
        }
    }
}

/// After a loss the threshold is at most what was in flight, or two minimal windows.
pub proof fn law_decrease_is_at_most_the_flight(c: Cubic, in_flight: usize)
    ensures
        c.decreased(in_flight) <= window::larger(in_flight, (2 * c.min_cwnd) as usize),
{
    let n = in_flight as nat;
    let b = cubic::beta();
    cubic::lemma_constants();
    if n == 0 {
        lemma_scaled_zero(b);
    } else {
        accuracy::lemma_scaled_integer(n, b);
        let y = Binary64::of(n).product(b);
        let (yn, yd) = (y.num(), y.den());
        assert(yn <= n * yd) by (nonlinear_arith)
            requires
                yn * LIMIT * (LIMIT * LIMIT) <= n * 0x16_6666_6666_6666 * yd * ((LIMIT + 1) * (
                LIMIT + 1)),
        ;
        accuracy::lemma_truncated_at_most(y, n);
    }
}

pub proof fn lemma_scaled_zero(c: Binary64)
    requires
        c is Finite,
        !c.sign(),
    ensures
        Binary64::of(0) == Binary64::zero(false),
        Binary64::of(0).product(c) == Binary64::zero(false),
        Binary64::zero(false).truncated() == 0,
{
    let z = Binary64::zero(false);
    accuracy::lemma_rounded_zero(false, 1);
    accuracy::law_product_with_zero(c, false);
    accuracy::law_product_commutes(z, c);
    dyadic::lemma_up_pos(z->exponent as int);
    assert(z.num() == 0) by (nonlinear_arith)
        requires
            z.num() == 0 * dyadic::up(z->exponent as int),
    ;
    accuracy::lemma_truncated_at_most(z, 0);
}

/// A new minimal window brings the offset up to date, and nothing else but that window changes.
pub proof fn law_mss_updates_offset(c: Cubic, mss: usize)
    ensures
        c.with_mss(mss).offset_is_current(),
        c.with_mss(mss) == (Cubic { min_cwnd: mss, k: c.with_mss(mss).k, ..c }),
{
}

/// A new minimal window that is no larger than the window and the threshold keeps the floor; one
/// that is no smaller than the old one keeps the ceiling.
pub proof fn law_mss_and_bounds(c: Cubic, mss: usize)
    ensures
        mss <= c.cwnd && mss <= c.ssthresh ==> c.with_mss(mss).above_floor(),
        c.below_ceiling() && mss >= c.min_cwnd ==> c.with_mss(mss).below_ceiling(),
{
}

/// Only the first loss cuts the window: until new data is acknowledged or the timer runs out,
/// further losses change nothing, and the threshold, the plateau and the curve of the first loss
/// stand.
pub proof fn law_one_cut_per_recovery(
    c: Cubic,
    first: Instant,
    flight: usize,
    history: Seq<Signal>,
    later: Instant,
    later_flight: usize,
)
    requires
        !c.in_fast_recovery,
        Cubic::leaves_recovery_on(history),
    ensures
        ({
            let d = c.lost(first, flight);
            let e = d.after_all(history);
            &&& e.lost(later, later_flight) == e
            &&& e.in_fast_recovery
            &&& e.ssthresh == c.decreased(flight)
            &&& e.w_max == d.w_max
            &&& e.k == d.k
            &&& e.cwnd_prior == c.cwnd
            &&& e.recovery_start == Some(first)
        }),
{
    lemma_recovery_goes_on(c.lost(first, flight), history);
}

proof fn lemma_recovery_goes_on(d: Cubic, history: Seq<Signal>)
    requires
        d.in_fast_recovery,
        d.idle_start is None,
        d.timed_out_at is None,
        Cubic::leaves_recovery_on(history),
    ensures
        ({
            let e = d.after_all(history);
            e == Cubic { cwnd: e.cwnd, rwnd: e.rwnd, ..d }
        }),
    decreases history.len(),
{
    if history.len() > 0 {
        let before = history.drop_last();
        assert forall|i: int| 0 <= i < before.len() implies !(#[trigger] before[i] is Ack) && !(
        before[i] is Timeout) by {
            assert(before[i] == history[i]);
        }
        lemma_recovery_goes_on(d, before);
        let e = d.after_all(before);
        let last = history.last();
        assert(last == history[history.len() - 1]);
        assert(d.after_all(history) == e.after(last));
    }
}

/// Outside fast recovery duplicate acknowledgements change nothing.
pub proof fn law_dup_ack_matters_in_recovery_only(c: Cubic, len: usize)
    requires
        !c.in_fast_recovery,
    ensures
        c.dup_acked(len) == c,
{
}

/// However far duplicate acknowledgements inflate the window of a fast recovery, the first
/// acknowledgement of new data ends the recovery with the window at the threshold of its loss.
pub proof fn law_ack_deflates_window(
    c: Cubic,
    lost_at: Instant,
    flight: usize,
    history: Seq<Signal>,
    now: Instant,
    len: usize,
    in_flight: usize,
    rtt: RttEstimator,
)
    requires
        !c.in_fast_recovery,
        Cubic::leaves_recovery_on(history),
    ensures
        ({
            let d = c.lost(lost_at, flight).after_all(history).acked(now, len, in_flight, rtt);
            &&& !d.in_fast_recovery
            &&& d.cwnd == c.decreased(flight)
            &&& d.ssthresh == c.decreased(flight)
            &&& d.w_est == Binary64::of(c.decreased(flight) as nat)
        }),
{
    lemma_recovery_goes_on(c.lost(lost_at, flight), history);
}

/// A timeout collapses the window to the minimal one, ends any recovery, and leaves no curve to
/// follow. Where twice the minimal window is a size, slow start follows.
pub proof fn law_timeout_restarts(c: Cubic, now: Instant, in_flight: usize)
    requires
        0 < 2 * c.min_cwnd <= usize::MAX,
    ensures
        ({
            let d = c.timed_out(now, in_flight);
            &&& d.cwnd == c.min_cwnd
            &&& d.cwnd < d.ssthresh
            &&& !d.in_fast_recovery
            &&& d.recovery_start is None
            &&& d.w_max == c.w_max
            &&& d.k == c.k
        }),
{
}

/// Idle time does not count: after a period in which nothing was in flight, the curve's time is
/// what it was at the acknowledgement that began the period, whether the period ends with a
/// transmission or with a further acknowledgement.
pub proof fn law_idle_time_does_not_count(
    c: Cubic,
    idle: Instant,
    len: usize,
    rtt: RttEstimator,
    now: Instant,
    in_flight: usize,
)
    requires
        now.micros >= idle.micros,
        c.acked(idle, len, 0, rtt).recovery_start is Some,
        c.acked(idle, len, 0, rtt).idle_fits(now),
    ensures
        ({
            let d = c.acked(idle, len, 0, rtt);
            &&& d.absorbed(now).elapsed(now) == d.elapsed(idle)
            &&& d.absorbed(now).idle_start is None
            &&& d.noted(now, in_flight).elapsed(now) == d.elapsed(idle)
        }),
{
}

/// A timeout is on record only where there is no curve to follow, in every state.
pub proof fn law_timeout_stands_alone(c: Cubic, history: Seq<Signal>)
    requires
        c.timeout_stands_alone(),
    ensures
        c.after_all(history).timeout_stands_alone(),
    decreases history.len(),
{
    if history.len() > 0 {
        law_timeout_stands_alone(c, history.drop_last());
        let d = c.after_all(history.drop_last());
        assert(c.after_all(history) == d.after(history.last()));
        if let Signal::Ack { now, len, in_flight, rtt } = history.last() {
            lemma_avoidance(d.noted(now, in_flight).begun(now), now, d.segment(len), rtt);
        }
    }
}

/// While a curve is running, in fast recovery, and wherever something has been acknowledged since
/// the last timeout, preparing a segment changes nothing.
pub proof fn law_preparing_matters_after_a_timeout_only(
    c: Cubic,
    ack: Instant,
    len: usize,
    in_flight: usize,
    rtt: RttEstimator,
    now: Instant,
)
    requires
        c.timeout_stands_alone(),
    ensures
        c.recovery_start is Some || c.in_fast_recovery ==> c.prepared(now) == c,
        c.acked(ack, len, in_flight, rtt).prepared(now) == c.acked(ack, len, in_flight, rtt),
{
    lemma_avoidance(c.noted(ack, in_flight).begun(ack), ack, c.segment(len), rtt);
}

/// Preparing a segment moves nothing but the window. The threshold, the plateau, the offset and
/// the beginning of the curve's time are left to losses, timeouts and congestion avoidance.
pub proof fn law_preparing_moves_the_window_only(c: Cubic, now: Instant)
    ensures
        c.prepared(now) == (Cubic { cwnd: c.prepared(now).cwnd, ..c }),
{
}

/// Preparing a segment never takes a window down that the receiver has room for, and never up
/// past the threshold of slow start.
pub proof fn law_preparing_stays_within_slow_start(c: Cubic, now: Instant)
    requires
        c.min_cwnd <= c.cwnd,
        c.min_cwnd <= c.ssthresh,
    ensures
        ({
            let size = c.prepared(now).cwnd;
            &&& c.cwnd <= c.rwnd ==> c.cwnd <= size <= c.rwnd
            &&& size <= c.cwnd || size <= c.ssthresh
            &&& c.cwnd >= c.ssthresh && c.cwnd <= c.rwnd ==> size == c.cwnd
        }),
{
}

/// After a timeout a segment that is prepared finds the window at the curve, as far as that is
/// within the threshold and the receiver's window.
pub proof fn law_window_follows_curve(c: Cubic, at: Instant, in_flight: usize, now: Instant)
    requires
        at.micros <= now.micros,
        2 * c.min_cwnd <= usize::MAX,
    ensures
        ({
            let d = c.timed_out(at, in_flight);
            let curve = c.curve_now(now.micros - at.micros).truncated();
            d.prepared(now).cwnd == window::within(
                window::smaller(curve, d.ssthresh) as nat,
                c.rwnd,
                c.min_cwnd,
            )
        }),
{
}

/// Preparing several segments at one time is preparing one.
pub proof fn law_preparing_twice(c: Cubic, now: Instant)
    ensures
        c.prepared(now).prepared(now) == c.prepared(now),
{
    let d = c.prepared(now);
    let t = now.micros - c.timed_out_at->0.micros;
    assert(d.curve_now(t) == c.curve_now(t));
}

/// Segments prepared between a timeout and congestion avoidance do not begin the curve: the
/// acknowledgement that does finds no beginning of the curve's time.
pub proof fn law_preparing_does_not_begin_the_curve(
    c: Cubic,
    at: Instant,
    in_flight: usize,
    first: Instant,
    second: Instant,
)
    ensures
        ({
            let d = c.timed_out(at, in_flight).prepared(first).prepared(second);
            &&& d.recovery_start is None
            &&& d.w_max == c.w_max
            &&& d.k == c.k
            &&& d.ssthresh == c.timed_out(at, in_flight).ssthresh
        }),
{
}

/// Without an idle period on record, sending changes nothing.
pub proof fn law_sending_without_idle_time(c: Cubic, now: Instant)
    requires
        c.idle_start is None,
    ensures
        c.absorbed(now) == c,
{
}

/// In slow start an acknowledgement grows the window by at most one minimal window, and never
/// shrinks one that the receiver has room for.
pub proof fn law_slow_start(
    c: Cubic,
    now: Instant,
    len: usize,
    in_flight: usize,
    rtt: RttEstimator,
)
    requires
        !c.in_fast_recovery,
        c.cwnd < c.ssthresh,
        c.min_cwnd <= c.cwnd <= c.rwnd,
    ensures
        ({
            let grown = c.acked(now, len, in_flight, rtt).cwnd;
            let by = c.segment(len);
            &&& by <= c.min_cwnd
            &&& by <= len
            &&& c.cwnd <= grown <= c.cwnd + by
            &&& grown <= c.rwnd
            &&& c.cwnd + by <= c.rwnd ==> grown == c.cwnd + by
        }),
{
}

/// An acknowledgement that follows the curve grows the window no faster than in slow start: by at
/// most the segment.
pub proof fn law_curve_no_faster_than_slow_start(
    c: Cubic,
    elapsed: int,
    segment: usize,
    rtt: RttEstimator,
)
    requires
        c.cwnd > 0,
    ensures
        c.shortfall(elapsed, rtt) <= c.cwnd,
        c.increment(elapsed, segment, rtt) <= segment,
{
    let n = c.cwnd as nat;
    let f = cubic::target_limit();
    cubic::lemma_constants();
    accuracy::lemma_scaled_integer(n, f);
    accuracy::law_product_commutes(f, Binary64::of(n));
    let limit = f.product(Binary64::of(n));
    let (ln, ld) = (limit.num(), limit.den());
    assert(ln <= 2 * n * ld) by (nonlinear_arith)
        requires
            ln * 0x10_0000_0000_0000 * (LIMIT * LIMIT) <= n * 0x18_0000_0000_0000 * ld * ((LIMIT
                + 1) * (LIMIT + 1)),
    ;
    accuracy::lemma_truncated_at_most(limit, 2 * n);
    let target = c.target(elapsed, rtt);
    if target != limit {
        accuracy::law_truncation_is_monotone(target, limit);
    }
    let short = c.shortfall(elapsed, rtt);
    assert(short * segment <= n * segment) by (nonlinear_arith)
        requires
            short <= n,
    ;
    vstd::arithmetic::div_mod::lemma_div_is_ordered(
        (short * segment as nat) as int,
        n * segment,
        n as int,
    );
    vstd::arithmetic::div_mod::lemma_div_by_multiple(segment as int, n as int);
    lemma_mul_is_commutative(segment as int, n as int);
}

/// An acknowledgement in congestion avoidance can be taken in wherever the window is not 0, the
/// window times the segment, and the window and the segment together, are sizes, and the curve's
/// time is a number of microseconds.
pub proof fn law_avoidance_fits(c: Cubic, now: Instant, segment: usize, rtt: RttEstimator)
    requires
        c.cwnd > 0,
        c.cwnd * segment <= usize::MAX,
        c.cwnd + segment <= usize::MAX,
        i64::MIN <= c.elapsed(now) <= i64::MAX,
    ensures
        c.avoidance_fits(now, segment, rtt),
{
    let t = c.elapsed(now);
    law_curve_no_faster_than_slow_start(c, t, segment, rtt);
    let short = c.shortfall(t, rtt);
    assert(short * segment <= c.cwnd * segment) by (nonlinear_arith)
        requires
            short <= c.cwnd,
    ;
}

proof fn lemma_one_plus_beta()
    ensures
        ({
            let c = cubic::one_plus_beta();
            &&& c is Finite
            &&& c.wf()
            &&& !c.sign()
            &&& 0 < c.den() <= c.num()
            &&& 4 * c.num() <= 7 * c.den()
        }),
{
    let one = Binary64::of(1);
    let b = cubic::beta();
    cubic::lemma_constants();
    accuracy::law_integers_are_exact(1);
    let od = one.den();
    dyadic::lemma_up_pos(one->exponent as int);
    let n = od * LIMIT + 0x16_6666_6666_6666 * od;
    let d = od * LIMIT;
    assert(one.num() == od);
    accuracy::lemma_normal_range(n as nat, d as nat);
    accuracy::law_relative_error(false, n as nat, d as nat);
    let c = Binary64::rounded(false, n as nat, d as nat);
    assert(cubic::one_plus_beta() == c);
    dyadic::lemma_up_pos(c->exponent as int);
    let (cn, cd) = (c.num(), c.den());
    assert(cn * d * LIMIT == cn * LIMIT * LIMIT * od && n * cd * (LIMIT + 1) == cd * (LIMIT
        + 0x16_6666_6666_6666) * (LIMIT + 1) * od && n * cd * (LIMIT - 1) == cd * (LIMIT
        + 0x16_6666_6666_6666) * (LIMIT - 1) * od) by (nonlinear_arith)
        requires
            n == od * LIMIT + 0x16_6666_6666_6666 * od,
            d == od * LIMIT,
    ;
    assert(cd <= cn && 4 * cn <= 7 * cd) by (nonlinear_arith)
        requires
            od > 0,
            cn * LIMIT * LIMIT * od <= cd * (LIMIT + 0x16_6666_6666_6666) * (LIMIT + 1) * od,
            cd * (LIMIT + 0x16_6666_6666_6666) * (LIMIT - 1) * od <= cn * LIMIT * LIMIT * od,
    {
        assert(cn * LIMIT * LIMIT <= cd * (LIMIT + 0x16_6666_6666_6666) * (LIMIT + 1));
        assert(cd * (LIMIT + 0x16_6666_6666_6666) * (LIMIT - 1) <= cn * LIMIT * LIMIT);
    }
}

/// The plateau of the next curve is at most the window of the loss. Where that window fell short
/// of the plateau before, the next one is below it: there is headroom for a new flow.
pub proof fn law_plateau_is_at_most_the_window(c: Cubic)
    ensures
        c.next_plateau() <= c.cwnd,
        0 < c.cwnd < c.w_max ==> c.next_plateau() < c.cwnd,
{
    let n = c.cwnd as nat;
    let f = cubic::one_plus_beta();
    let two = Binary64::of(2);
    lemma_one_plus_beta();
    accuracy::law_integers_are_exact(2);
    dyadic::lemma_up_pos(two->exponent as int);
    if n == 0 {
        lemma_scaled_zero(f);
        let z = Binary64::zero(false);
        dyadic::lemma_up_pos(z->exponent as int);
        let (td, zd) = (two.den(), z.den());
        assert(zd * (2 * td) > 0 && z.num() * td == 0) by (nonlinear_arith)
            requires
                zd > 0,
                td > 0,
                z.num() == 0 * dyadic::up(z->exponent as int),
        ;
        accuracy::lemma_rounded_zero(false, zd * (2 * td));
        lemma_two_is_not_zero();
    } else {
        accuracy::lemma_scaled_integer(n, f);
        lemma_two_is_not_zero();
        let y = Binary64::of(n).product(f);
        let (yn, yd, td) = (y.num(), y.den(), two.den());
        let num = yn * td;
        let den = yd * (2 * td);
        assert(0 < den <= 32 * num && num <= den * 0x8_0000_0000_0000_0000) by (nonlinear_arith)
            requires
                num == yn * td,
                den == yd * (2 * td),
                td > 0,
                0 < yd <= 16 * yn,
                yn <= yd * 0x8_0000_0000_0000_0000,
        ;
        accuracy::lemma_normal_range(num, den);
        accuracy::law_relative_error(false, num, den);
        let z = Binary64::rounded(false, num, den);
        assert(y.quotient(two) == z);
        let (zn, zd) = (z.num(), z.den());
        dyadic::lemma_up_pos(z->exponent as int);
        assert(zn * yd * 2 * LIMIT <= yn * zd * (LIMIT + 1)) by (nonlinear_arith)
            requires
                zn * den * LIMIT <= num * zd * (LIMIT + 1),
                num == yn * td,
                den == yd * (2 * td),
                td > 0,
        {
            assert(zn * den * LIMIT == (zn * yd * 2 * LIMIT) * td);
            assert(num * zd * (LIMIT + 1) == (yn * zd * (LIMIT + 1)) * td);
        }
        lemma_plateau_bound(n, f.num(), f.den(), yn, yd, zn, zd);
        accuracy::lemma_truncated_below(z, n);
    }
}

proof fn lemma_two_is_not_zero()
    ensures
        !Binary64::of(2).is_zero(),
        Binary64::of(2).num() == 2 * Binary64::of(2).den(),
{
    let two = Binary64::of(2);
    accuracy::law_integers_are_exact(2);
    dyadic::lemma_up_pos(two->exponent as int);
    assert(0 * dyadic::up(two->exponent as int) == 0);
}

proof fn lemma_plateau_bound(n: nat, fnum: nat, fd: nat, yn: nat, yd: nat, zn: nat, zd: nat)
    requires
        n > 0,
        yd > 0,
        zd > 0,
        fd > 0,
        4 * fnum <= 7 * fd,
        yn * fd * (LIMIT * LIMIT) <= n * fnum * yd * ((LIMIT + 1) * (LIMIT + 1)),
        zn * yd * 2 * LIMIT <= yn * zd * (LIMIT + 1),
    ensures
        zn < n * zd,
{
    // yn / yd <= n * 15 / 8, then zn / zd < n.
    assert(8 * yn <= 15 * n * yd) by (nonlinear_arith)
        requires
            fd > 0,
            4 * fnum <= 7 * fd,
            yn * fd * (LIMIT * LIMIT) <= n * fnum * yd * ((LIMIT + 1) * (LIMIT + 1)),
    {
        let ny = n * yd;
        assert(n * fnum * yd == ny * fnum);
        assert(4 * (ny * fnum) <= 7 * (ny * fd));
        assert(4 * (yn * fd) * (LIMIT * LIMIT) <= 7 * (ny * fd) * ((LIMIT + 1) * (LIMIT + 1)));
        assert(8 * (yn * fd) <= 15 * (ny * fd));
        assert((8 * yn) * fd <= (15 * ny) * fd);
        assert(8 * yn <= 15 * ny);
    }
    assert(zn < n * zd) by (nonlinear_arith)
        requires
            n > 0,
            zd > 0,
            yd > 0,
            8 * yn <= 15 * n * yd,
            zn * yd * 2 * LIMIT <= yn * zd * (LIMIT + 1),
    {
        let nz = n * zd;
        assert(8 * (yn * zd) <= 15 * (nz * yd));
        assert(8 * (zn * yd) * 2 * LIMIT <= 15 * (nz * yd) * (LIMIT + 1));
        assert(nz > 0);
        assert(nz * yd > 0);
        assert(zn * yd < nz * yd);
        assert(zn < nz);
    }
}

proof fn lemma_one_minus_beta()
    ensures
        cube_root::is_between(cubic::one_minus_beta(), 2, 0),
{
    let one = Binary64::of(1);
    cubic::lemma_constants();
    lemma2_to64();
    accuracy::law_integers_are_exact(1);
    let od = one.den();
    dyadic::lemma_up_pos(one->exponent as int);
    let n = od * (LIMIT - 0x16_6666_6666_6666);
    let d = od * LIMIT;
    assert(one.num() * LIMIT + (-0x16_6666_6666_6666int) * od == n) by (nonlinear_arith)
        requires
            one.num() == od,
            n == od * (LIMIT - 0x16_6666_6666_6666),
    ;
    assert(cubic::one_minus_beta() == Binary64::rounded(false, n as nat, d as nat));
    cube_root::lemma_rounded_between(n as nat, d as nat, 2, 0);
}

proof fn lemma_size_between(n: usize)
    requires
        n > 0,
    ensures
        cube_root::is_between(Binary64::of(n as nat), 0, 64),
{
    lemma2_to64();
    lemma2_to64_rest();
    cube_root::lemma_rounded_between(n as nat, 1, 0, 64);
}

/// The offset of a curve is a number, 0 or more, wherever there is a minimal window. It is 0 just
/// where the plateau is.
pub proof fn law_offset_is_a_number(w_max: usize, min_cwnd: usize)
    requires
        min_cwnd > 0,
    ensures
        ({
            let k = cubic::curve_offset(w_max, min_cwnd);
            &&& k is Finite
            &&& k.wf()
            &&& !k.sign()
            &&& k.is_zero() <==> w_max == 0
        }),
{
    let rise = cubic::one_minus_beta();
    let share = cubic::curvature();
    let w = Binary64::of(w_max as nat);
    lemma2_to64();
    cubic::lemma_constants();
    lemma_one_minus_beta();
    lemma_size_between(min_cwnd);
    cube_root::lemma_product_between(share, Binary64::of(min_cwnd as nat), 2, 0, 0, 64);
    let scale = cubic::scaling(min_cwnd);
    let risen = w.product(rise);
    if w_max == 0 {
        lemma_scaled_zero(rise);
        assert(risen.num() == 0) by (nonlinear_arith)
            requires
                risen.num() == 0 * dyadic::up(risen->exponent as int),
        ;
    } else {
        lemma_size_between(w_max);
        cube_root::lemma_product_between(w, rise, 0, 64, 2, 0);
    }
    assert(risen.num() <= risen.den() * pow2(64)) by {
        dyadic::lemma_up_pos(risen->exponent as int);
    }
    cube_root::lemma_quotient_at_most(risen, scale, 64, 2, 64);
    cube_root::law_root_is_positive(risen.quotient(scale));
    let zero = Binary64::zero(false);
    dyadic::lemma_up_pos(zero->exponent as int);
    if w_max == 0 {
        lemma_quotient_of_zero(risen, scale);
        assert(0 * zero.den() == 0);
    } else {
        cube_root::lemma_quotient_between(risen, scale, 2, 64, 2, 64);
        let cubed = risen.quotient(scale);
        cube_root::lemma_not_zero(cubed, 66);
        let (n, d) = (cubed.num(), zero.den());
        assert(zero.num() == 0) by (nonlinear_arith)
            requires
                zero.num() == 0 * dyadic::up(zero->exponent as int),
        ;
        assert(n * d > 0 && 0 * cubed.den() == 0) by (nonlinear_arith)
            requires
                n > 0,
                d > 0,
        ;
    }
}

pub proof fn lemma_quotient_of_zero(z: Binary64, b: Binary64)
    requires
        z == Binary64::zero(false),
        b is Finite,
        !b.sign(),
        !b.is_zero(),
        b.num() > 0,
    ensures
        z.quotient(b) == Binary64::zero(false),
{
    dyadic::lemma_up_pos(z->exponent as int);
    dyadic::lemma_up_pos(b->exponent as int);
    let (zd, bn, bd) = (z.den(), b.num(), b.den());
    assert(z.num() * bd == 0 && zd * bn > 0) by (nonlinear_arith)
        requires
            z.num() == 0 * dyadic::up(z->exponent as int),
            zd > 0,
            bn > 0,
    ;
    accuracy::lemma_rounded_zero(false, zd * bn);
}

/// The curve is at its plateau when its time has reached the offset.
pub proof fn law_curve_reaches_plateau(c: Cubic)
    requires
        c.offset_is_current(),
        c.min_cwnd > 0 || c.k == Binary64::zero(false),
    ensures
        c.k is Finite,
        c.curve(c.k) == Binary64::of(c.w_max as nat),
{
    if c.min_cwnd > 0 {
        law_offset_is_a_number(c.w_max, c.min_cwnd);
    }
    let z = Binary64::zero(false);
    let scale = cubic::scaling(c.min_cwnd);
    let w = Binary64::of(c.w_max as nat);
    accuracy::law_difference_with_itself(c.k);
    accuracy::law_product_with_zero(z, false);
    lemma_scaling_is_finite(c.min_cwnd);
    accuracy::law_product_with_zero(scale, false);
    lemma_size_is_finite(c.w_max);
    accuracy::law_sum_with_zero(w);
}

pub proof fn lemma_size_is_finite(n: usize)
    ensures
        Binary64::of(n as nat) is Finite,
        Binary64::of(n as nat).wf(),
        !Binary64::of(n as nat).sign(),
{
    if n == 0 {
        accuracy::law_integers_are_exact(0);
    } else {
        accuracy::lemma_normal_range(n as nat, 1);
        accuracy::law_relative_error(false, n as nat, 1);
    }
}

proof fn lemma_scaling_is_finite(min_cwnd: usize)
    ensures
        cubic::scaling(min_cwnd) is Finite,
        !cubic::scaling(min_cwnd).sign(),
{
    let n = min_cwnd as nat;
    let f = cubic::curvature();
    cubic::lemma_constants();
    accuracy::law_product_commutes(f, Binary64::of(n));
    if n == 0 {
        lemma_scaled_zero(f);
    } else {
        accuracy::lemma_scaled_integer(n, f);
    }
}

pub proof fn lemma_scaling_is_positive(min_cwnd: usize)
    requires
        min_cwnd > 0,
    ensures
        cubic::scaling(min_cwnd) is Finite,
        !cubic::scaling(min_cwnd).sign(),
        !cubic::scaling(min_cwnd).is_zero(),
{
    cubic::lemma_constants();
    lemma2_to64();
    lemma_size_between(min_cwnd);
    let f = cubic::curvature();
    cube_root::lemma_product_between(f, Binary64::of(min_cwnd as nat), 2, 0, 0, 64);
    cube_root::lemma_not_zero(cubic::scaling(min_cwnd), 2);
}

/// Where congestion avoidance begins without a curve to follow, as after a timeout, the curve
/// begins on its plateau at the present window.
pub proof fn law_curve_begins_at_window(c: Cubic, now: Instant)
    requires
        c.recovery_start is None,
    ensures
        ({
            let d = c.begun(now);
            &&& d.w_max == c.cwnd
            &&& d.elapsed(now) == 0
            &&& d.curve_now(0) == Binary64::of(c.cwnd as nat)
            &&& d.w_est == Binary64::of(c.cwnd as nat)
        }),
{
    let d = c.begun(now);
    let z = Binary64::zero(false);
    let million = Binary64::of(1_000_000);
    lemma_scaled_zero(z);
    accuracy::law_integers_are_exact(1_000_000);
    dyadic::lemma_up_pos(million->exponent as int);
    dyadic::lemma_up_pos(z->exponent as int);
    let (md, zd) = (million.den(), z.den());
    assert(million.num() > 0) by (nonlinear_arith)
        requires
            million.num() == 1_000_000 * md,
            md > 0,
    ;
    assert(!million.is_zero()) by {
        assert(0 * dyadic::up(million->exponent as int) == 0);
    }
    assert(zd * million.num() > 0 && z.num() * md == 0) by (nonlinear_arith)
        requires
            zd > 0,
            million.num() > 0,
            z.num() == 0 * dyadic::up(z->exponent as int),
    ;
    accuracy::lemma_rounded_zero(false, zd * million.num());
    assert(z.quotient(million) == z);
    law_curve_reaches_plateau(d);
}

/// An acknowledgement from before the beginning of the curve's time leaves the window alone.
pub proof fn law_time_before_the_curve(
    c: Cubic,
    now: Instant,
    len: usize,
    in_flight: usize,
    rtt: RttEstimator,
)
    requires
        !c.in_fast_recovery,
        c.cwnd >= c.ssthresh,
        c.recovery_start is Some,
        c.idle_start is None,
        now.micros < c.recovery_start->0.micros,
    ensures
        c.acked(now, len, in_flight, rtt) == (Cubic {
            idle_start: if in_flight == 0 {
                Some(now)
            } else {
                None
            },
            timed_out_at: None,
            ..c
        }),
{
}

/// The largest announced window counts, in whatever order the announcements come.
pub proof fn law_largest_remote_window_counts(c: Cubic, a: usize, b: usize)
    ensures
        c.with_remote_window(a).with_remote_window(b) == c.with_remote_window(
            b,
        ).with_remote_window(a),
        c.with_remote_window(a).with_remote_window(b).rwnd >= a,
        c.with_remote_window(a).with_remote_window(b).rwnd >= b,
        c.with_remote_window(a).with_remote_window(b).rwnd >= c.rwnd,
{
}

} // verus!
