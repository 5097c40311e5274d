//! What each event does to a CUBIC controller, in sizes and times.

use vstd::prelude::*;
use crate::binary64::{accuracy, value, Binary64};
use crate::cubic::Cubic;
use crate::rtt::RttEstimator;
use crate::time::Instant;

verus! {

/// `x` is the size `n`: exactly so below `2^53`, and up to one part in `2^53` above.
pub open spec fn is_size(x: Binary64, n: usize) -> bool {
    &&& x is Finite
    &&& !x.sign()
    &&& n < 0x20_0000_0000_0000 ==> x.value() == n as real
    &&& n as real * 9007199254740991real <= x.value() * 9007199254740992real
    &&& x.value() * 9007199254740992real <= n as real * 9007199254740993real
}

/// `size` cut off at `rwnd` and then raised to `min_cwnd`.
pub open spec fn is_held(cwnd: usize, size: int, rwnd: usize, min_cwnd: usize) -> bool {
    &&& min_cwnd <= size <= rwnd ==> cwnd == size
    &&& size > rwnd >= min_cwnd ==> cwnd == rwnd
    &&& size < min_cwnd || rwnd < min_cwnd ==> cwnd == min_cwnd
}

pub proof fn lemma_size(n: usize)
    ensures
        is_size(Binary64::of(n as nat), n),
{
    let x = Binary64::of(n as nat);
    if n < 0x20_0000_0000_0000 {
        value::lemma_integer_value(n as nat);
    } else {
        accuracy::lemma_normal_range(n as nat, 1);
        accuracy::law_relative_error(false, n as nat, 1);
        value::lemma_value(x);
        let (xn, xd) = (x.num(), x.den());
        let (v, rn, rd, rm) = (x.value(), xn as real, xd as real, n as real);
        let (p, q) = (xn * 1, n * xd);
        assert(q as real == rm * rd) by (nonlinear_arith)
            requires
                q == n * xd,
                rm == n as real,
                rd == xd as real,
        ;
        let rq = q as real;
        assert(rn * 9007199254740992real <= rq * 9007199254740993real && rq * 9007199254740991real
            <= rn * 9007199254740992real) by (nonlinear_arith)
            requires
                rn == xn as real,
                rq == q as real,
                xn * 9007199254740992 <= q * 9007199254740993,
                q * 9007199254740991 <= xn * 9007199254740992,
        ;
        assert(rm * 9007199254740991real <= v * 9007199254740992real && v * 9007199254740992real
            <= rm * 9007199254740993real) by (nonlinear_arith)
            requires
                v * rd == rn,
                rq == rm * rd,
                rd > 0real,
                rn * 9007199254740992real <= rq * 9007199254740993real,
                rq * 9007199254740991real <= rn * 9007199254740992real,
        ;
    }
}

/// What every acknowledgement does: it ends a recovery and the wait after a timeout, notes
/// whether anything is left in flight, and leaves the threshold, the bounds and the window of the
/// last congestion event alone.
pub proof fn law_ack_in_general(
    c: Cubic,
    now: Instant,
    len: usize,
    in_flight: usize,
    rtt: RttEstimator,
)
    ensures
        ({
            let d = c.acked(now, len, in_flight, rtt);
            &&& d.min_cwnd == c.min_cwnd
            &&& d.rwnd == c.rwnd
            &&& d.ssthresh == c.ssthresh
            &&& d.cwnd_prior == c.cwnd_prior
            &&& !d.in_fast_recovery
            &&& d.timed_out_at is None
            &&& in_flight == 0 ==> d.idle_start == Some(now)
            &&& in_flight != 0 ==> d.idle_start is None
        }),
{
}

/// The first acknowledgement in a recovery sets the window, and the Reno-friendly one, to the
/// threshold, and leaves the curve alone.
pub proof fn law_ack_in_recovery(
    c: Cubic,
    now: Instant,
    len: usize,
    in_flight: usize,
    rtt: RttEstimator,
)
    requires
        c.in_fast_recovery,
    ensures
        ({
            let d = c.acked(now, len, in_flight, rtt);
            &&& d.cwnd == c.ssthresh
            &&& is_size(d.w_est, c.ssthresh)
            &&& d.w_max == c.w_max
            &&& d.k == c.k
            &&& c.idle_start is None ==> d.recovery_start == c.recovery_start
        }),
{
    lemma_size(c.ssthresh);
}

/// In slow start the window after an acknowledgement of `len` bytes is the window before plus
/// `len`, but no more than one minimal window more, within its bounds. The curve is left alone.
pub proof fn law_ack_in_slow_start(
    c: Cubic,
    now: Instant,
    len: usize,
    in_flight: usize,
    rtt: RttEstimator,
)
    requires
        !c.in_fast_recovery,
        c.cwnd < c.ssthresh,
    ensures
        ({
            let d = c.acked(now, len, in_flight, rtt);
            &&& len <= c.min_cwnd ==> is_held(d.cwnd, c.cwnd + len, c.rwnd, c.min_cwnd)
            &&& len > c.min_cwnd ==> is_held(d.cwnd, c.cwnd + c.min_cwnd, c.rwnd, c.min_cwnd)
            &&& d.w_est == c.w_est
            &&& d.w_max == c.w_max
            &&& d.k == c.k
            &&& c.idle_start is None ==> d.recovery_start == c.recovery_start
        }),
{
}

/// An idle period moves the beginning of the curve's time by its length, and does nothing else:
/// the acknowledgement does what it would do had the curve begun that much later.
pub proof fn law_ack_after_idle_time(
    c: Cubic,
    idle: Instant,
    start: Instant,
    now: Instant,
    len: usize,
    in_flight: usize,
    rtt: RttEstimator,
)
    requires
        c.idle_start == Some(idle),
        c.recovery_start == Some(start),
        idle.micros <= now.micros,
        start.micros + (now.micros - idle.micros) <= i64::MAX,
    ensures
        ({
            let moved = (start.micros + (now.micros - idle.micros)) as i64;
            let b = Cubic {
                recovery_start: Some(Instant { micros: moved }),
                idle_start: None,
                ..c
            };
            c.acked(now, len, in_flight, rtt) == b.acked(now, len, in_flight, rtt)
        }),
{
}

/// Without a curve, or with a time before the idle period, that period has no effect.
pub proof fn law_ack_without_idle_time(
    c: Cubic,
    idle: Instant,
    now: Instant,
    len: usize,
    in_flight: usize,
    rtt: RttEstimator,
)
    requires
        c.idle_start == Some(idle),
        c.recovery_start is None || now.micros < idle.micros,
    ensures
        c.acked(now, len, in_flight, rtt) == (Cubic { idle_start: None, ..c }).acked(
            now,
            len,
            in_flight,
            rtt,
        ),
{
}

/// Where congestion avoidance begins without a curve, an acknowledgement does what it would do on
/// a curve that begins at this time, on its plateau at the present window.
pub proof fn law_ack_begins_curve(
    c: Cubic,
    now: Instant,
    len: usize,
    in_flight: usize,
    rtt: RttEstimator,
)
    requires
        !c.in_fast_recovery,
        c.cwnd >= c.ssthresh,
        c.recovery_start is None,
    ensures
        ({
            let size = Binary64::of(c.cwnd as nat);
            let b = Cubic {
                w_max: c.cwnd,
                k: Binary64::Finite { negative: false, significand: 0, exponent: -1074 as i32 },
                w_est: size,
                recovery_start: Some(now),
                idle_start: None,
                ..c
            };
            let d = c.acked(now, len, in_flight, rtt);
            &&& is_size(size, c.cwnd)
            &&& d == b.acked(now, len, in_flight, rtt)
            &&& d.w_max == c.cwnd
            &&& d.k.is_zero()
            &&& d.recovery_start == Some(now)
        }),
{
    lemma_size(c.cwnd);
}

/// A duplicate acknowledgement inflates the window of a recovery by `len`, within its bounds, and
/// changes nothing else.
pub proof fn law_dup_ack(c: Cubic, len: usize)
    ensures
        ({
            let d = c.dup_acked(len);
            &&& d == (Cubic { cwnd: d.cwnd, ..c })
            &&& !c.in_fast_recovery ==> d.cwnd == c.cwnd
            &&& c.in_fast_recovery ==> is_held(d.cwnd, c.cwnd + len, c.rwnd, c.min_cwnd)
        }),
{
}

/// The first loss of a recovery starts a curve at its time and remembers the window. The new one
/// is the threshold, or the receiver's window where that is less, and three minimal windows. A
/// further loss changes nothing but that there is no idle period.
pub proof fn law_loss(c: Cubic, now: Instant, in_flight: usize)
    ensures
        ({
            let d = c.lost(now, in_flight);
            let three = 3 * c.min_cwnd;
            &&& d.idle_start is None
            &&& d.in_fast_recovery
            &&& d.min_cwnd == c.min_cwnd
            &&& d.rwnd == c.rwnd
            &&& d.w_est == c.w_est
            &&& c.in_fast_recovery ==> d == (Cubic { idle_start: None, ..c })
            &&& !c.in_fast_recovery ==> {
                &&& d.cwnd_prior == c.cwnd
                &&& d.recovery_start == Some(now)
                &&& d.timed_out_at is None
                &&& c.cwnd >= c.w_max ==> d.w_max == c.cwnd
                &&& d.ssthresh <= c.rwnd && d.ssthresh + three <= usize::MAX ==> d.cwnd
                    == d.ssthresh + three
                &&& d.ssthresh > c.rwnd && c.rwnd + three <= usize::MAX ==> d.cwnd == c.rwnd
                    + three
                &&& d.ssthresh + three > usize::MAX && c.rwnd + three > usize::MAX ==> d.cwnd
                    == usize::MAX
            }
        }),
{
}

/// A timeout takes the window down to the minimal one and the threshold to half of what was in
/// flight, rounded down, or two minimal windows where that is more. It ends the recovery and the
/// curve's time, and leaves the plateau and the offset alone.
pub proof fn law_timeout(c: Cubic, now: Instant, in_flight: usize)
    requires
        2 * c.min_cwnd <= usize::MAX,
    ensures
        ({
            let d = c.timed_out(now, in_flight);
            &&& d == (Cubic {
                cwnd: c.min_cwnd,
                ssthresh: d.ssthresh,
                cwnd_prior: in_flight,
                recovery_start: None,
                in_fast_recovery: false,
                idle_start: None,
                timed_out_at: Some(now),
                ..c
            })
            &&& d.ssthresh >= 2 * c.min_cwnd
            &&& in_flight >= 4 * c.min_cwnd ==> 2 * d.ssthresh <= in_flight < 2 * d.ssthresh + 2
            &&& in_flight < 4 * c.min_cwnd ==> d.ssthresh == 2 * c.min_cwnd
        }),
{
}

/// Sending ends an idle period: the beginning of the curve's time moves on by its length.
/// Nothing else changes.
pub proof fn law_transmission(c: Cubic, now: Instant)
    requires
        c.recovery_start is Some && c.idle_start is Some && now.micros >= c.idle_start->0.micros
            ==> c.recovery_start->0.micros + (now.micros - c.idle_start->0.micros) <= i64::MAX,
    ensures
        ({
            let d = c.absorbed(now);
            &&& d == (Cubic { recovery_start: d.recovery_start, idle_start: None, ..c })
            &&& d.recovery_start is Some <==> c.recovery_start is Some
            &&& c.recovery_start is Some && c.idle_start is Some && now.micros
                >= c.idle_start->0.micros ==> d.recovery_start->0.micros
                - c.recovery_start->0.micros == now.micros - c.idle_start->0.micros
            &&& c.idle_start is None || now.micros < c.idle_start->0.micros ==> d.recovery_start
                == c.recovery_start
        }),
{
}

/// A new minimal window replaces the old one and sets the offset; an announced window replaces a
/// smaller one. Nothing else changes.
pub proof fn law_settings(c: Cubic, size: usize)
    ensures
        ({
            let (d, e) = (c.with_mss(size), c.with_remote_window(size));
            &&& d == (Cubic { min_cwnd: size, k: d.k, ..c })
            &&& e == (Cubic { rwnd: e.rwnd, ..c })
            &&& size > c.rwnd ==> e.rwnd == size
            &&& size <= c.rwnd ==> e.rwnd == c.rwnd
        }),
{
}

} // verus!
