//! What an acknowledgement does in congestion avoidance.

use vstd::prelude::*;
use vstd::arithmetic::div_mod::*;
use crate::binary64::{value, Binary64};
use crate::cubic;
use crate::cubic::Cubic;
use crate::rtt::RttEstimator;
use crate::time::Instant;
use super::events;
use super::formulas;
use super::loss;

verus! {

/// A controller in congestion avoidance on a curve that began at `start`, with nothing idle.
pub open spec fn is_avoiding(c: Cubic, start: Instant) -> bool {
    &&& !c.in_fast_recovery
    &&& c.ssthresh <= c.cwnd
    &&& c.recovery_start == Some(start)
    &&& c.idle_start is None
}

/// The acknowledged bytes that count: no more than one minimal window.
pub open spec fn counted(c: Cubic, len: usize) -> int {
    if len <= c.min_cwnd {
        len as int
    } else {
        c.min_cwnd as int
    }
}

/// `micros` in seconds.
pub open spec fn seconds(micros: int) -> Binary64 {
    Binary64::of(micros as nat).quotient(Binary64::of(1_000_000))
}

/// `micros` and a round trip of `srtt` milliseconds, or one millisecond, in seconds.
pub open spec fn seconds_ahead(micros: int, srtt: u32) -> Binary64 {
    let round_trip: nat = if srtt == 0 {
        1000
    } else {
        1000 * srtt as nat
    };
    Binary64::of(micros as nat).sum(Binary64::of(round_trip)).quotient(Binary64::of(1_000_000))
}

/// In congestion avoidance an acknowledgement leaves the curve alone.
pub proof fn law_avoidance_keeps_the_curve(
    c: Cubic,
    start: Instant,
    now: Instant,
    len: usize,
    in_flight: usize,
    rtt: RttEstimator,
)
    requires
        is_avoiding(c, start),
    ensures
        ({
            let d = c.acked(now, len, in_flight, rtt);
            &&& d.w_max == c.w_max
            &&& d.k == c.k
            &&& d.recovery_start == Some(start)
        }),
{
}

/// Where the Reno-friendly window is ahead of the curve, it becomes the window: its integer part,
/// within the window's bounds.
pub proof fn law_ack_takes_the_friendly_window(
    c: Cubic,
    start: Instant,
    now: Instant,
    len: usize,
    in_flight: usize,
    rtt: RttEstimator,
) -> (whole: int)
    requires
        is_avoiding(c, start),
        start.micros <= now.micros,
        c.acked(now, len, in_flight, rtt).w_est is Finite,
        !c.acked(now, len, in_flight, rtt).w_est.sign(),
        c.curve(seconds(now.micros - start.micros)).less(c.acked(now, len, in_flight, rtt).w_est),
    ensures
        ({
            let d = c.acked(now, len, in_flight, rtt);
            &&& 0 <= whole <= usize::MAX
            &&& whole as real <= d.w_est.value()
            &&& d.w_est.value() < whole as real + 1real || whole == usize::MAX
            &&& events::is_held(d.cwnd, whole, c.rwnd, c.min_cwnd)
        }),
{
    let d = c.acked(now, len, in_flight, rtt);
    value::lemma_truncated_value(d.w_est);
    d.w_est.truncated() as int
}

/// Elsewhere the window moves towards a target, the curve one round trip ahead, or one
/// millisecond where that is longer, but no more than one and a half windows. The window gains
/// the counted bytes' share of what is missing to the target, rounded down.
pub proof fn law_ack_moves_towards_the_target(
    c: Cubic,
    start: Instant,
    now: Instant,
    len: usize,
    in_flight: usize,
    rtt: RttEstimator,
) -> (r: (int, int))
    requires
        is_avoiding(c, start),
        start.micros <= now.micros,
        c.cwnd > 0,
        !c.curve(seconds(now.micros - start.micros)).less(
            c.acked(now, len, in_flight, rtt).w_est,
        ),
        c.curve(seconds_ahead(now.micros - start.micros, rtt.srtt)) is Finite,
    ensures
        ({
            let (target, growth) = r;
            let d = c.acked(now, len, in_flight, rtt);
            let n = c.cwnd as int;
            let ahead = c.curve(seconds_ahead(now.micros - start.micros, rtt.srtt)).value();
            let most = 15real / 10real * (n as real);
            let l = 9007199254740992real;
            &&& 0 <= target <= usize::MAX
            &&& target as real <= ahead || target == 0
            &&& target as real * l <= most * (l + 7real)
            &&& ahead < target as real + 1real || most * (l - 7real) < (target as real + 1real) * l
                || target == usize::MAX
            &&& target <= n ==> growth == 0
            &&& target > n ==> n * growth <= (target - n) * counted(c, len) < n * (growth + 1)
            &&& growth >= 0
            &&& events::is_held(d.cwnd, n + growth, c.rwnd, c.min_cwnd)
        }),
{
    let t = now.micros - start.micros;
    let d = c.acked(now, len, in_flight, rtt);
    let curve = c.curve(seconds_ahead(t, rtt.srtt));
    let n = c.cwnd;
    let size = Binary64::of(n as nat);
    let most = cubic::target_limit().product(size);
    loss::lemma_constant_values();
    loss::lemma_size_near(n);
    let (p, q) = (15real / 10real, n as real);
    assert(1real <= q <= 18446744073709551616real);
    loss::lemma_product_near(cubic::target_limit(), p, 2real, size, q, 1real);
    value::lemma_value(most);
    value::lemma_less_value(curve, most);
    let aim = curve.lesser(most);
    value::lemma_truncated_value(aim);
    reveal(value::near);
    let target = aim.truncated() as int;
    let segment = c.segment(len);
    let short = c.shortfall(t, rtt);
    let growth = c.increment(t, segment, rtt) as int;
    lemma_value_sign(aim);
    lemma_fundamental_div_mod((short * segment as nat) as int, n as int);
    lemma_mod_bound((short * segment as nat) as int, n as int);
    assert(n * (growth + 1) == n * growth + n) by (nonlinear_arith);
    if target <= n {
        assert(short == 0);
        assert(0 * segment as nat == 0);
        lemma_div_basics(n as int);
    }
    (target, growth)
}

proof fn lemma_value_sign(a: Binary64)
    requires
        a is Finite,
    ensures
        a.sign() ==> a.value() <= 0real,
{
    value::lemma_value(a);
    value::lemma_ratio(a.num(), a.den());
}

/// Where the curve ahead is one and a half windows or more, the window gains half of the counted
/// bytes, less what rounding down takes, if the receiver has room.
pub proof fn law_steep_curve_gains_half(
    c: Cubic,
    start: Instant,
    now: Instant,
    len: usize,
    in_flight: usize,
    rtt: RttEstimator,
)
    requires
        is_avoiding(c, start),
        start.micros <= now.micros,
        0 < c.cwnd < 0x1000_0000_0000,
        c.cwnd < usize::MAX / 2,
        c.min_cwnd <= c.cwnd,
        c.cwnd + counted(c, len) <= c.rwnd,
        !c.curve(seconds(now.micros - start.micros)).less(
            c.acked(now, len, in_flight, rtt).w_est,
        ),
        c.curve(seconds_ahead(now.micros - start.micros, rtt.srtt)) is Finite,
        c.curve(seconds_ahead(now.micros - start.micros, rtt.srtt)).value() >= 2real
            * c.cwnd as real,
    ensures
        ({
            let d = c.acked(now, len, in_flight, rtt);
            let gain = d.cwnd - c.cwnd;
            &&& 0 <= gain <= counted(c, len)
            &&& 2 * c.cwnd * (gain + 1) >= (c.cwnd - 2) * counted(c, len)
        }),
{
    let (target, growth) = law_ack_moves_towards_the_target(c, start, now, len, in_flight, rtt);
    let n = c.cwnd as int;
    let b = counted(c, len);
    let (rt, rn, l) = (target as real, n as real, 9007199254740992real);
    // 2 target + 2 > 3 n (1 - 7 / 2^53), so 2 target + 2 >= 3 n; and target <= 2 n.
    assert(rt * l <= 2real * rn * l);
    assert(target <= 2 * n);
    assert(2 * target + 2 >= 3 * n);
    if target > n {
        let short = target - n;
        assert(short * b <= n * b) by (nonlinear_arith)
            requires
                short <= n,
                b >= 0,
        ;
        assert(growth <= b) by (nonlinear_arith)
            requires
                n * growth <= n * b,
                n > 0,
        ;
        assert(2 * short * b >= (n - 2) * b) by (nonlinear_arith)
            requires
                2 * short >= n - 2,
                b >= 0,
        ;
        assert(2 * n * (growth + 1) == 2 * (n * (growth + 1)) && 2 * short * b == 2 * (short * b))
            by (nonlinear_arith);
    } else {
        assert(n <= 2);
        assert((n - 2) * b <= 0 && 2 * n * (growth + 1) >= 0) by (nonlinear_arith)
            requires
                0 <= n <= 2,
                b >= 0,
                growth >= 0,
        ;
    }
}

/// A time in microseconds in seconds, up to rounding.
pub proof fn law_seconds(micros: int)
    requires
        0 <= micros <= u64::MAX,
    ensures
        ({
            let x = seconds(micros);
            let exact = micros as real / 1000000real;
            &&& x is Finite && x.wf() && !x.sign()
            &&& exact * (9007199254740992real - 3real) <= x.value() * 9007199254740992real
            &&& x.value() * 9007199254740992real <= exact * (9007199254740992real + 3real)
        }),
{
    let (a, m) = (Binary64::of(micros as nat), Binary64::of(1_000_000));
    let (x, y) = (a.value(), micros as real);
    lemma_number_near(micros as nat);
    value::lemma_integer_value(1_000_000);
    let exact = y / 1000000real;
    if micros == 0 {
        value::lemma_integer_value(0);
        lemma_zero_seconds();
        value::lemma_zero_value(false);
        assert(seconds(micros).value() == 0real);
        assert(exact == 0real);
    } else {
        value::lemma_near_bounds(x, y, 1real);
        value::lemma_quotient_near(a, m);
        let c = 1real / 1000000real;
        value::lemma_near_scaled(x, y, 1real, c);
        assert(c * x == x / 1000000real && c * y == exact);
        value::lemma_near_chain(seconds(micros).value(), x / 1000000real, exact, 1real, 1real);
        assert(value::near(seconds(micros).value(), exact, 3real));
        reveal(value::near);
    }
}

proof fn lemma_zero_seconds()
    ensures
        seconds(0) == Binary64::zero(false),
{
    value::lemma_integer_value(1_000_000);
    let (z, m) = (Binary64::zero(false), Binary64::of(1_000_000));
    crate::binary64::accuracy::lemma_rounded_zero(false, 1);
    value::lemma_value(m);
    value::lemma_zero_value(false);
    let (v, d) = (m.value(), m.den() as real);
    assert(v * d > 0real) by (nonlinear_arith)
        requires
            v == 1000000real,
            d > 0real,
    ;
    assert(!m.is_zero()) by {
        assert(0 * crate::dyadic::up(m->exponent as int) == 0);
    }
    super::cubic::lemma_quotient_of_zero(z, m);
}

pub proof fn lemma_near_itself(x: real)
    requires
        x >= 0real,
    ensures
        value::near(x, x, 1real),
{
    reveal(value::near);
    let l = value::limit();
    assert(x * (l - 1real) == x * l - x && x * (l + 1real) == x * l + x) by (nonlinear_arith);
}

/// An integer is near its number.
proof fn lemma_number_near(n: nat)
    requires
        n <= u64::MAX,
    ensures
        Binary64::of(n).is_magnitude(),
        value::near(Binary64::of(n).value(), n as real, 1real),
{
    let x = Binary64::of(n);
    if n < 0x20_0000_0000_0000 {
        value::lemma_integer_value(n);
        lemma_near_itself(n as real);
    } else {
        value::lemma_summit();
        value::lemma_rounded_near(n, 1);
        value::lemma_ratio(n, 1);
        let (q, y) = (value::ratio(n, 1), n as real);
        assert(q == y) by (nonlinear_arith)
            requires
                q * 1real == y,
        ;
    }
}

/// A time in microseconds and a round trip in milliseconds, at least one, in seconds, up to
/// rounding.
pub proof fn law_seconds_ahead(micros: int, srtt: u32)
    requires
        0 <= micros <= u64::MAX,
    ensures
        ({
            let x = seconds_ahead(micros, srtt);
            let round_trip = if srtt == 0 {
                1real
            } else {
                srtt as real
            };
            let exact = micros as real / 1000000real + round_trip / 1000real;
            &&& x is Finite && x.wf() && !x.sign()
            &&& exact * (9007199254740992real - 7real) <= x.value() * 9007199254740992real
            &&& x.value() * 9007199254740992real <= exact * (9007199254740992real + 7real)
        }),
{
    let r: nat = if srtt == 0 {
        1000
    } else {
        1000 * srtt as nat
    };
    let (a, b, m) = (Binary64::of(micros as nat), Binary64::of(r), Binary64::of(1_000_000));
    lemma_number_near(micros as nat);
    value::lemma_integer_value(r);
    value::lemma_integer_value(1_000_000);
    let (y, z) = (micros as real, r as real);
    let sum = a.sum(b);
    value::lemma_near_bounds(a.value(), y, 1real);
    value::lemma_value(a);
    value::lemma_sum_value(a, b);
    value::lemma_rounding_is_near(sum.value(), a.value() + b.value());
    lemma_number_near(r);
    formulas::lemma_near_sum(a.value(), y, b.value(), z, 1real);
    value::lemma_near_chain(sum.value(), a.value() + b.value(), y + z, 2real, 1real);
    value::lemma_near_bounds(sum.value(), y + z, 4real);
    value::lemma_quotient_near(sum, m);
    let (c, exact) = (1real / 1000000real, (y + z) / 1000000real);
    value::lemma_near_scaled(sum.value(), y + z, 4real, c);
    assert(c * sum.value() == sum.value() / 1000000real && c * (y + z) == exact);
    value::lemma_near_chain(
        sum.quotient(m).value(),
        sum.value() / 1000000real,
        exact,
        1real,
        4real,
    );
    loss::lemma_near_widens(sum.quotient(m).value(), exact, 6real, 7real);
    reveal(value::near);
    let round_trip = if srtt == 0 {
        1real
    } else {
        srtt as real
    };
    assert(z == 1000real * round_trip);
    assert(exact == y / 1000000real + round_trip / 1000real);
}

/// Preparing a segment changes nothing but the window, and that only from a timeout on until
/// something is acknowledged or lost. Then the window becomes the integer part of the curve in
/// the time since the timeout where that is ahead, but no more than the threshold, within its
/// bounds.
pub proof fn law_preparing(c: Cubic, now: Instant) -> (whole: int)
    requires
        c.timed_out_at is Some && now.micros >= c.timed_out_at->0.micros ==> c.curve(
            seconds(now.micros - c.timed_out_at->0.micros),
        ) is Finite,
    ensures
        ({
            let d = c.prepared(now);
            &&& d == (Cubic { cwnd: d.cwnd, ..c })
            &&& c.timed_out_at is None || now.micros < c.timed_out_at->0.micros ==> d == c
            &&& c.timed_out_at is Some && now.micros >= c.timed_out_at->0.micros ==> {
                let curve = c.curve(seconds(now.micros - c.timed_out_at->0.micros)).value();
                &&& 0 <= whole <= usize::MAX
                &&& whole as real <= curve || whole == 0
                &&& curve < whole as real + 1real || whole == usize::MAX
                &&& whole <= c.cwnd || c.ssthresh <= c.cwnd ==> events::is_held(
                    d.cwnd,
                    c.cwnd as int,
                    c.rwnd,
                    c.min_cwnd,
                )
                &&& c.cwnd < whole <= c.ssthresh ==> events::is_held(
                    d.cwnd,
                    whole,
                    c.rwnd,
                    c.min_cwnd,
                )
                &&& c.cwnd < c.ssthresh < whole ==> events::is_held(
                    d.cwnd,
                    c.ssthresh as int,
                    c.rwnd,
                    c.min_cwnd,
                )
            }
        }),
{
    if c.timed_out_at is Some && now.micros >= c.timed_out_at->0.micros {
        let curve = c.curve(seconds(now.micros - c.timed_out_at->0.micros));
        value::lemma_truncated_value(curve);
        lemma_value_sign(curve);
        curve.truncated() as int
    } else {
        0
    }
}

/// Without a minimal window no bytes count: where the Reno-friendly window is not ahead of the
/// curve, the window stands, as far as the receiver has room.
pub proof fn law_ack_without_minimal_window(
    c: Cubic,
    start: Instant,
    now: Instant,
    len: usize,
    in_flight: usize,
    rtt: RttEstimator,
)
    requires
        is_avoiding(c, start),
        start.micros <= now.micros,
        c.cwnd > 0,
        c.min_cwnd == 0,
        !c.curve(seconds(now.micros - start.micros)).less(
            c.acked(now, len, in_flight, rtt).w_est,
        ),
    ensures
        events::is_held(c.acked(now, len, in_flight, rtt).cwnd, c.cwnd as int, c.rwnd, 0),
{
    let t = now.micros - start.micros;
    let short = c.shortfall(t, rtt);
    assert(short * 0 == 0) by (nonlinear_arith);
    lemma_div_basics(c.cwnd as int);
}

} // verus!
