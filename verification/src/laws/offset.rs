//! The offset of a CUBIC controller's curve, and the method that finds it.

use vstd::prelude::*;
use crate::binary64::{accuracy, value, Binary64};
use crate::cube_root;
use crate::cubic;
use crate::cubic::Cubic;
use crate::rtt::RttEstimator;
use crate::time::Instant;
use super::cube_root::cubed;
use super::formulas;
use super::friendly;
use super::loss;
use super::newton;

verus! {

/// How close two iterates have to be for the cube root of `a`.
pub open spec fn tolerance(a: real) -> real {
    if a < 1000real {
        1real
    } else if a < 1000000real {
        5real
    } else if a < 1000000000real {
        50real
    } else if a < 1000000000000real {
        500real
    } else if a < 1000000000000000real {
        5000real
    } else {
        50000real
    }
}

/// The first iterate, in thousandths of the tolerance: the cube root of seven tenths of the
/// largest number of the range.
pub open spec fn is_first(v: real, a: real) -> bool {
    if a < 1000real {
        8879real <= v * 1000real <= 8880real
    } else {
        17758real * tolerance(a) <= v * 1000real <= 17759real * tolerance(a)
    }
}

proof fn lemma_tolerance(a: Binary64)
    requires
        a.is_magnitude(),
        0real < a.value() < 20000000000000000000real,
    ensures
        cube_root::start(a).0.is_magnitude(),
        cube_root::start(a).1.is_magnitude(),
        cube_root::start(a).0.value() == tolerance(a.value()),
        is_first(cube_root::start(a).1.value(), a.value()),
{
    if a.value() < 1000000000000000000real {
        newton::lemma_start(a);
    } else {
        lemma_last_start();
    }
    value::lemma_integer_value(1_000);
    value::lemma_integer_value(1_000_000);
    value::lemma_integer_value(1_000_000_000);
    value::lemma_integer_value(1_000_000_000_000);
    value::lemma_integer_value(1_000_000_000_000_000);
    value::lemma_less_value(a, Binary64::of(1_000));
    value::lemma_less_value(a, Binary64::of(1_000_000));
    value::lemma_less_value(a, Binary64::of(1_000_000_000));
    value::lemma_less_value(a, Binary64::of(1_000_000_000_000));
    value::lemma_less_value(a, Binary64::of(1_000_000_000_000_000));
    value::lemma_integer_value(1);
    value::lemma_integer_value(5);
    value::lemma_integer_value(50);
    value::lemma_integer_value(500);
    value::lemma_integer_value(5_000);
    value::lemma_integer_value(50_000);
}

/// The last starting point.
proof fn lemma_last_start()
    ensures
        ({
            let x = Binary64::rounded(false, 8_879_040_017_426, 10_000_000);
            &&& x.is_magnitude()
            &&& 887900real <= x.value() <= 887950real
        }),
{
    cube_root::lemma_starting_points();
    vstd::arithmetic::power2::lemma2_to64();
    vstd::arithmetic::power2::lemma2_to64_rest();
    newton::lemma_literal_value(
        0x1b_18c0_00e4_67f4,
        33,
        vstd::arithmetic::power2::pow2(33),
    );
}

/// Iterates of Newton's method for the cube root of `a`: each is the step from the one before, up
/// to eleven roundings, and all but the last are at least the tolerance apart, up to rounding.
pub open spec fn are_iterates(trace: Seq<real>, a: real, t: real) -> bool {
    &&& trace.len() >= 2
    &&& forall|i: int|
        0 <= i < trace.len() - 1 ==> value::near(
            #[trigger] trace[i + 1],
            newton::exact_step(a, trace[i]),
            11real,
        )
    &&& forall|i: int|
        0 <= i < trace.len() - 2 ==> value::absolute(#[trigger] trace[i + 1] - trace[i]) * 1000real
            >= t * 999real
}

proof fn lemma_trace(a: Binary64, x: Binary64, tol: Binary64, n: nat) -> (trace: Seq<real>)
    requires
        a.is_magnitude(),
        0real < a.value() <= 20000000000000000000real,
        tol.is_magnitude(),
        1real <= tol.value() <= 50000real,
        x.is_magnitude(),
        tol.value() <= x.value(),
        x.value() * 100real + n as real <= 1000000000real,
        newton::not_below(x.value(), a.value()),
    ensures
        are_iterates(trace, a.value(), tol.value()),
        trace[0] == x.value(),
        trace.last() == cube_root::newton(a, x, tol, n).value(),
        trace.len() <= n + 2,
        ({
            let k = trace.len() as int;
            let apart = value::absolute(trace[k - 1] - trace[k - 2]);
            k < n + 2 ==> apart * 9007199254740992real <= tol.value() * 9007199254740995real
        }),
    decreases n,
{
    let (c, v, t) = (a.value(), x.value(), tol.value());
    newton::lemma_step_value(a, x);
    let next = cube_root::newton_step(a, x);
    let y = next.value();
    newton::lemma_step_not_below(c, v, y);
    newton::lemma_step_does_not_rise(c, v, y);
    newton::lemma_ends(x, next, tol);
    if newton::ends(x, next, tol) || n == 0 {
        let trace = seq![v, y];
        assert(trace[1] == y);
        trace
    } else {
        newton::lemma_exact_step(c, v);
        value::lemma_near_bounds(y, newton::exact_step(c, v), 11real);
        let rest = lemma_trace(a, next, tol, (n - 1) as nat);
        lemma_prefixed(rest, c, t, v)
    }
}

proof fn lemma_prefixed(rest: Seq<real>, a: real, t: real, v: real) -> (trace: Seq<real>)
    requires
        are_iterates(rest, a, t),
        value::near(rest[0], newton::exact_step(a, v), 11real),
        value::absolute(rest[0] - v) * 1000real >= t * 999real,
    ensures
        are_iterates(trace, a, t),
        trace.len() == rest.len() + 1,
        trace[0] == v,
        trace.last() == rest.last(),
        trace[trace.len() - 2] == rest[rest.len() - 2],
{
    let trace = seq![v] + rest;
    assert forall|i: int| 0 <= i < trace.len() - 1 implies value::near(
        #[trigger] trace[i + 1],
        newton::exact_step(a, trace[i]),
        11real,
    ) by {
        assert(trace[i + 1] == rest[i]);
        if i > 0 {
            assert(trace[i] == rest[i - 1]);
            assert(rest[(i - 1) + 1] == rest[i]);
        }
    }
    assert forall|i: int| 0 <= i < trace.len() - 2 implies value::absolute(
        #[trigger] trace[i + 1] - trace[i],
    ) * 1000real >= t * 999real by {
        assert(trace[i + 1] == rest[i]);
        if i > 0 {
            assert(trace[i] == rest[i - 1]);
            assert(rest[(i - 1) + 1] == rest[i]);
        }
    }
    trace
}

/// The first step stays below `10^7`.
proof fn lemma_first_step(a: real, v: real)
    requires
        0real < a < 20000000000000000000real,
        is_first(v, a),
    ensures
        v >= 1real,
        v <= 1000000real,
        newton::exact_step(a, v) <= 9900000real,
{
    newton::lemma_exact_step(a, v);
    let n = newton::exact_step(a, v);
    let s = v * v;
    let c = v * v * v;
    assert(s > 0real && c == v * s) by (nonlinear_arith)
        requires
            s == v * v,
            c == v * v * v,
            v >= 1real,
    ;
    if a < 1000000000000000real {
        lemma_share_of_square(a, v, s);
    } else {
        assert(v >= 887900real);
        assert(s >= 788000000000real) by (nonlinear_arith)
            requires
                s == v * v,
                v >= 887900real,
        ;
    }
    assert(a <= 26000000real * s);
    assert(3real * n <= 2real * v + 26000000real) by (nonlinear_arith)
        requires
            3real * n * s == 2real * c + a,
            c == v * s,
            s > 0real,
            a <= 26000000real * s,
    ;
}

proof fn lemma_share_of_square(a: real, v: real, s: real)
    requires
        0real < a < 1000000000000000real,
        is_first(v, a),
        s == v * v,
    ensures
        a <= 26000000real * s,
{
    if a < 1000000000real {
        assert(v >= 8real);
        assert(s >= 64real) by (nonlinear_arith)
            requires
                s == v * v,
                v >= 8real,
        ;
    } else {
        assert(v >= 8500real);
        assert(s >= 72250000real) by (nonlinear_arith)
            requires
                s == v * v,
                v >= 8500real,
        ;
    }
}

/// The cube root is what Newton's method comes to: the iterates start from the range's first one,
/// and go on until two of them are within the tolerance of each other.
pub proof fn law_root_follows_the_method(a: Binary64) -> (trace: Seq<real>)
    requires
        a is Finite,
        a.wf(),
        !a.sign(),
        0real < a.value() < 20_000_000_000_000_000_000real,
    ensures
        cube_root::root(a) is Some,
        are_iterates(trace, a.value(), tolerance(a.value())),
        is_first(trace[0], a.value()),
        trace.last() == cube_root::root(a)->0.value(),
        trace.len() <= 22,
        ({
            let k = trace.len() as int;
            let apart = value::absolute(trace[k - 1] - trace[k - 2]);
            k < 22 ==> apart * 9007199254740992real <= tolerance(a.value())
                * 9007199254740995real
        }),
{
    let (tol, x) = cube_root::start(a);
    let (c, t, v) = (a.value(), tol.value(), x.value());
    value::lemma_zero_value(false);
    value::lemma_less_value(Binary64::zero(false), a);
    lemma_tolerance(a);
    newton::lemma_step_value(a, x);
    let next = cube_root::newton_step(a, x);
    let y = next.value();
    newton::lemma_step_not_below(c, v, y);
    lemma_first_step(c, v);
    newton::lemma_exact_step(c, v);
    value::lemma_near_bounds(y, newton::exact_step(c, v), 11real);
    newton::lemma_ends(x, next, tol);
    if newton::ends(x, next, tol) {
        let trace = seq![v, y];
        assert(trace[1] == y);
        trace
    } else {
        let rest = lemma_trace(a, next, tol, 19);
        lemma_prefixed(rest, c, t, v)
    }
}

/// What the offset is to a plateau `w` and a minimal window `m`: 0 for no plateau, and else no
/// further below the cube root of `w * 0.3 / (m * 0.4)` than a hundred-thousandth of that
/// number, and less than twice the tolerance above it.
pub open spec fn is_offset(k: Binary64, w: usize, m: usize) -> bool {
    let a = 3real * (w as real) / (4real * (m as real));
    &&& k is Finite && k.wf() && !k.sign()
    &&& w == 0 ==> k.is_zero()
    &&& w > 0 ==> {
        let twice = 2real * tolerance(a * 1000001real / 1000000real);
        &&& cubed(k.value()) * 100000real >= a * 99999real
        &&& k.value() > twice ==> cubed(k.value() - twice) * 1000000real < a * 1000001real
    }
}

proof fn lemma_ratio_of_sizes(w: real, m: real)
    requires
        1real <= w <= 18446744073709551616real,
        1real <= m <= 18446744073709551616real,
    ensures
        ({
            let a = 3real * w / (4real * m);
            &&& (3real / 10real * w) * (1real / (4real / 10real * m)) == a
            &&& 0real < a <= 14000000000000000000real
            &&& w < 1000000000000000000real * m ==> a < 750000000000000000real
            &&& a * 1000000000000000000000real >= 1real
        }),
{
    let (a, d) = (3real * w / (4real * m), 4real * m);
    assert(a * d == 3real * w) by (nonlinear_arith)
        requires
            a == 3real * w / d,
            d >= 4real,
    ;
    let (e, z) = (4real / 10real * m, 1real / (4real / 10real * m));
    assert(z * e == 1real) by (nonlinear_arith)
        requires
            z == 1real / e,
            e > 0real,
    ;
    let x = (3real / 10real * w) * z;
    assert(x * e == 3real / 10real * w) by (nonlinear_arith)
        requires
            x == (3real / 10real * w) * z,
            z * e == 1real,
    ;
    assert(a * e == 3real / 10real * w) by (nonlinear_arith)
        requires
            a * d == 3real * w,
            d == 4real * m,
            e == 4real / 10real * m,
    ;
    assert(x == a) by (nonlinear_arith)
        requires
            x * e == a * e,
            e > 0real,
    ;
    assert(a > 0real && a * 4real <= 3real * w) by (nonlinear_arith)
        requires
            a * d == 3real * w,
            d >= 4real,
            w >= 1real,
    ;
    if w < 1000000000000000000real * m {
        assert(a < 750000000000000000real) by (nonlinear_arith)
            requires
                a * d == 3real * w,
                d == 4real * m,
                m >= 1real,
                w >= 1real,
                w < 1000000000000000000real * m,
        ;
    }
    assert(a * 1000000000000000000000real >= 1real) by (nonlinear_arith)
        requires
            a * d == 3real * w,
            a > 0real,
            d <= 4real * 18446744073709551616real,
            w >= 1real,
    {
        assert(a * d <= a * (4real * 18446744073709551616real));
    }
}

/// What is under the root.
proof fn lemma_cubed_offset(w: usize, m: usize)
    requires
        w > 0,
        m > 0,
    ensures
        ({
            let x = Binary64::of(w as nat).product(cubic::one_minus_beta()).quotient(
                cubic::scaling(m),
            );
            let a = 3real * (w as real) / (4real * (m as real));
            &&& x.is_magnitude()
            &&& value::near(x.value(), a, 24real)
            &&& 0real < a <= 14000000000000000000real
            &&& w < 1_000_000_000_000_000_000 * m ==> a < 750000000000000000real
        }),
{
    let (rw, rm) = (w as real, m as real);
    let size = Binary64::of(w as nat);
    let (rise, scale) = (cubic::one_minus_beta(), cubic::scaling(m));
    assert(1real <= rw <= 18446744073709551616real && 1real <= rm <= 18446744073709551616real);
    lemma_ratio_of_sizes(rw, rm);
    loss::lemma_size_near(w);
    friendly::lemma_one_minus_beta_value();
    formulas::lemma_scaling_value(m);
    loss::lemma_product_near(size, rw, 1real, rise, 3real / 10real, 8real);
    let y = size.product(rise);
    let (p, q) = (rw * (3real / 10real), 4real / 10real * rm);
    value::lemma_near_bounds(y.value(), p, 13real);
    value::lemma_near_bounds(scale.value(), q, 7real);
    value::lemma_near_reciprocal(scale.value(), q, 7real);
    let (u, v) = (1real / scale.value(), 1real / q);
    friendly::lemma_positive_reciprocal_of(q);
    value::lemma_near_product(y.value(), p, 13real, u, v, 8real);
    friendly::lemma_reciprocal(y.value(), scale.value());
    let a = 3real * rw / (4real * rm);
    assert(p * v == a);
    let e = y.value() / scale.value();
    value::lemma_near_bounds(e, a, 22real);
    value::lemma_quotient_near(y, scale);
    value::lemma_near_chain(y.quotient(scale).value(), e, a, 1real, 22real);
}

proof fn lemma_offset(w: usize, m: usize)
    requires
        m > 0,
        w < 1_000_000_000_000_000_000 * m,
    ensures
        is_offset(cubic::curve_offset(w, m), w, m),
{
    super::cubic::law_offset_is_a_number(w, m);
    if w > 0 {
        lemma_cubed_offset(w, m);
        let x = Binary64::of(w as nat).product(cubic::one_minus_beta()).quotient(
            cubic::scaling(m),
        );
        let a = 3real * (w as real) / (4real * (m as real));
        value::lemma_near_bounds(x.value(), a, 24real);
        super::cube_root::law_root_is_near(x);
        lemma_tolerance(x);
        let k = cubic::curve_offset(w, m);
        let (c, e) = (x.value(), 1real - 11real / 9_007_199_254_740_992real);
        let e3 = cubed(e);
        assert(e3 * 1000000real >= 999999real) by (nonlinear_arith)
            requires
                e3 == e * e * e,
                e == 1real - 11real / 9_007_199_254_740_992real,
        ;
        assert(c * e3 * 1000000real >= c * 999999real) by (nonlinear_arith)
            requires
                e3 * 1000000real >= 999999real,
                c > 0real,
        ;
        let (t, s) = (tolerance(c), tolerance(a * 1000001real / 1000000real));
        assert(t <= s);
        let (v, p, q) = (k.value(), 2real * t, 2real * s);
        if v > q {
            newton::lemma_cubes_ordered(v - q, v - p);
        }
    }
}

/// A loss, and a new minimal window, leave the offset of the present plateau.
pub proof fn law_offset(c: Cubic, now: Instant, in_flight: usize, mss: usize)
    requires
        !c.in_fast_recovery,
    ensures
        ({
            let (d, e) = (c.lost(now, in_flight), c.with_mss(mss));
            &&& c.min_cwnd > 0 && d.w_max < 1_000_000_000_000_000_000 * c.min_cwnd ==> is_offset(
                d.k,
                d.w_max,
                c.min_cwnd,
            )
            &&& mss > 0 && c.w_max < 1_000_000_000_000_000_000 * mss ==> is_offset(
                e.k,
                c.w_max,
                mss,
            )
        }),
{
    let d = c.lost(now, in_flight);
    if c.min_cwnd > 0 && d.w_max < 1_000_000_000_000_000_000 * c.min_cwnd {
        lemma_offset(d.w_max, c.min_cwnd);
    }
    if mss > 0 && c.w_max < 1_000_000_000_000_000_000 * mss {
        lemma_offset(c.w_max, mss);
    }
}

/// `k` is what the method comes to for `a`, which is `w * 0.3 / (m * 0.4)` up to rounding.
pub open spec fn is_found(k: Binary64, w: usize, m: usize, a: real, trace: Seq<real>) -> bool {
    let exact = 3real * (w as real) / (4real * (m as real));
    let n = trace.len() as int;
    &&& exact * (9007199254740992real - 24real) <= a * 9007199254740992real
    &&& a * 9007199254740992real <= exact * (9007199254740992real + 24real)
    &&& are_iterates(trace, a, tolerance(a))
    &&& is_first(trace[0], a)
    &&& n < 22 ==> value::absolute(trace[n - 1] - trace[n - 2]) * 9007199254740992real
        <= tolerance(a) * 9007199254740995real
    &&& n <= 22
    &&& k.value() == trace.last()
}

proof fn lemma_offset_is_found(w: usize, m: usize) -> (r: (real, Seq<real>))
    requires
        m > 0,
        w > 0,
    ensures
        is_found(cubic::curve_offset(w, m), w, m, r.0, r.1),
{
    lemma_cubed_offset(w, m);
    let x = Binary64::of(w as nat).product(cubic::one_minus_beta()).quotient(cubic::scaling(m));
    let a = 3real * (w as real) / (4real * (m as real));
    value::lemma_near_bounds(x.value(), a, 24real);
    let trace = law_root_follows_the_method(x);
    reveal(value::near);
    (x.value(), trace)
}

/// The offset after a loss is the one that the method finds for the new plateau.
pub proof fn law_loss_finds_offset(c: Cubic, now: Instant, in_flight: usize) -> (r: (
    real,
    Seq<real>,
))
    requires
        !c.in_fast_recovery,
        c.min_cwnd > 0,
        c.lost(now, in_flight).w_max > 0,
    ensures
        ({
            let d = c.lost(now, in_flight);
            is_found(d.k, d.w_max, c.min_cwnd, r.0, r.1)
        }),
{
    lemma_offset_is_found(c.lost(now, in_flight).w_max, c.min_cwnd)
}

/// The offset after a new minimal window is the one that the method finds for it.
pub proof fn law_mss_finds_offset(c: Cubic, mss: usize) -> (r: (real, Seq<real>))
    requires
        mss > 0,
        c.w_max > 0,
    ensures
        is_found(c.with_mss(mss).k, c.w_max, mss, r.0, r.1),
{
    lemma_offset_is_found(c.w_max, mss)
}

/// There is a cube root of every number above 0, and of no other.
pub proof fn law_root_exists(a: Binary64)
    requires
        a is Finite,
    ensures
        cube_root::root(a) is Some <==> a.value() > 0real,
{
    value::lemma_zero_value(false);
    value::lemma_less_value(Binary64::zero(false), a);
}

/// The absolute value is the value without its sign.
pub proof fn law_magnitude(a: Binary64)
    requires
        a is Finite,
    ensures
        ({
            let m = cube_root::magnitude(a);
            &&& m is Finite
            &&& a.value() >= 0real ==> m.value() == a.value()
            &&& a.value() < 0real ==> m.value() == -a.value()
        }),
{
    value::lemma_zero_value(false);
    value::lemma_less_value(a, Binary64::zero(false));
}

/// A new controller is in slow start at two segments of 1024 bytes, with room for 64 of them and
/// the offset of a plateau at its window; and the window that a controller answers is its
/// congestion window.
pub proof fn law_new_controller(c: Cubic) -> (r: (real, Seq<real>))
    ensures
        ({
            let n = Cubic::new();
            &&& n.cwnd == 2 * 1024 && n.min_cwnd == 2 * 1024
            &&& n.w_max == 2 * 1024 && n.cwnd_prior == 2 * 1024
            &&& n.rwnd == 64 * 1024
            &&& n.ssthresh == usize::MAX
            &&& n.w_est.value() == 2048real
            &&& n.recovery_start is None && n.idle_start is None && n.timed_out_at is None
            &&& !n.in_fast_recovery
            &&& is_found(n.k, 2048, 2048, r.0, r.1)
        }),
        c.window() == c.cwnd,
{
    value::lemma_integer_value(2048);
    lemma_offset_is_found(2048, 2048)
}

/// Times are counted in microseconds, a thousand to the millisecond, and the round-trip time in
/// milliseconds.
pub proof fn law_times(n: i64, m: i64, srtt: u32)
    requires
        i64::MIN <= m * 1000 <= i64::MAX,
    ensures
        Instant::from_micros(n).total_micros() == n,
        Instant::from_millis(m).total_micros() == m * 1000,
        RttEstimator::new(srtt).smoothed_rtt() == srtt,
{
}

/// What is not a number, or infinite with an infinite iterate, has no iterates that are numbers.
proof fn lemma_no_number(a: Binary64, x: Binary64, tol: Binary64, n: nat)
    requires
        a is Nan || x is Nan || (a is Infinity && x is Infinity),
    ensures
        cube_root::newton(a, x, tol, n) is Nan,
    decreases n,
{
    let next = cube_root::newton_step(a, x);
    assert(next is Nan);
    if n > 0 {
        lemma_no_number(a, next, tol, (n - 1) as nat);
    }
}

/// Without a minimal window the offset is not a number.
pub proof fn law_no_offset_without_minimal_window(c: Cubic)
    ensures
        c.with_mss(0).k is Nan,
{
    let size = Binary64::of(c.w_max as nat);
    let (rise, scale) = (cubic::one_minus_beta(), cubic::scaling(0));
    let zero = Binary64::zero(false);
    loss::lemma_constant_values();
    loss::lemma_size_near(c.w_max);
    friendly::lemma_one_minus_beta_value();
    accuracy::lemma_rounded_zero(false, 1);
    accuracy::law_product_with_zero(cubic::curvature(), false);
    assert(scale == zero);
    value::lemma_near_bounds(rise.value(), 3real / 10real, 8real);
    let (v, w) = (size.value(), rise.value());
    assert(0real <= v * w <= 36893488147419103232real) by (nonlinear_arith)
        requires
            0real <= v <= 36893488147419103232real,
            0real <= w <= 1real,
    ;
    value::lemma_product_value(size, rise);
    let y = size.product(rise);
    let a = y.quotient(scale);
    assert(a is Nan || a == (Binary64::Infinity { negative: false }));
    let (tol, x) = cube_root::start(a);
    if a is Nan {
        lemma_no_number(a, x, tol, 20);
    } else {
        cube_root::lemma_starting_points();
        value::lemma_integer_value(1_000);
        value::lemma_integer_value(1_000_000);
        value::lemma_integer_value(1_000_000_000);
        value::lemma_integer_value(1_000_000_000_000);
        value::lemma_integer_value(1_000_000_000_000_000);
        value::lemma_integer_value(50_000);
        assert(x == Binary64::positive(0x1b_18c0_00e4_67f4, -33 as i32));
        lemma_infinite_step(a, x, tol);
        lemma_no_number(a, cube_root::newton_step(a, x), tol, 19);
    }
}

/// The first step for an infinite number is infinite.
proof fn lemma_infinite_step(a: Binary64, x: Binary64, tol: Binary64)
    requires
        a == (Binary64::Infinity { negative: false }),
        x == Binary64::positive(0x1b_18c0_00e4_67f4, -33 as i32),
        tol is Finite,
    ensures
        cube_root::newton_step(a, x) == (Binary64::Infinity { negative: false }),
        cube_root::newton(a, x, tol, 20) == cube_root::newton(
            a,
            cube_root::newton_step(a, x),
            tol,
            19,
        ),
{
    value::lemma_integer_value(2);
    value::lemma_integer_value(3);
    value::lemma_value(x);
    vstd::arithmetic::power2::lemma2_to64_rest();
    let v = x.value();
    let (n, d) = (x.num() as real, x.den() as real);
    assert(x.num() == 0x1b_18c0_00e4_67f4 * 1);
    assert(x.den() == 0x2_0000_0000);
    assert(0real <= v <= 1000000real) by (nonlinear_arith)
        requires
            v * d == n,
            d == 8589934592real,
            n == 7627037298943988real,
    ;
    assert(0real <= v * v <= 1000000000000real) by (nonlinear_arith)
        requires
            0real <= v <= 1000000real,
    ;
    value::lemma_product_value(x, x);
    value::lemma_product_value(Binary64::of(2), x);
    let step = cube_root::newton_step(a, x);
    assert(step == (Binary64::Infinity { negative: false }));
}

} // verus!
