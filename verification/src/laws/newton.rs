//! How near Newton's method comes to a cube root.

use vstd::prelude::*;
use vstd::arithmetic::power2::*;
use crate::binary64::{value, Binary64};
use crate::cube_root;

verus! {

/// The step of the method in real numbers.
#[verifier::opaque]
pub open spec fn exact_step(a: real, v: real) -> real {
    (2real * v + a / (v * v)) / 3real
}

/// A step never falls below the cube root, and takes no more than a third off.
pub proof fn lemma_exact_step(a: real, v: real)
    requires
        a > 0real,
        v > 0real,
    ensures
        ({
            let n = exact_step(a, v);
            &&& 3real * n * (v * v) == 2real * (v * v * v) + a
            &&& 3real * n >= 2real * v
            &&& n * n * n >= a
        }),
{
    reveal(exact_step);
    let n = exact_step(a, v);
    let s = v * v;
    let q = a / s;
    assert(s > 0real) by (nonlinear_arith)
        requires
            s == v * v,
            v > 0real,
    ;
    assert(q * s == a && q > 0real) by (nonlinear_arith)
        requires
            q == a / s,
            a > 0real,
            s > 0real,
    ;
    assert(3real * n == 2real * v + q);
    assert(3real * n * s == 2real * (v * v * v) + a) by (nonlinear_arith)
        requires
            3real * n == 2real * v + q,
            q * s == a,
            s == v * v,
    ;
    assert(n * n * n >= a) by (nonlinear_arith)
        requires
            a > 0real,
            v > 0real,
            3real * n * s == 2real * (v * v * v) + a,
            s == v * v,
    ;
}

/// The rounded quotient by the rounded square, added to twice the iterate.
proof fn lemma_rounded_terms(a: real, v: real, s: real, q: real, d: real)
    requires
        a > 0real,
        v >= 1real,
        value::near(s, v * v, 2real),
        s > 0real,
        value::is_rounding(q, a / s),
        value::near(d, 2real * v, 2real),
    ensures
        value::near(d + q, 2real * v + a / (v * v), 5real),
{
    reveal(value::near);
    reveal(value::is_rounding);
    let (l, w) = (value::limit(), v * v);
    let (b, c) = (a / s, a / w);
    assert(w >= 1real) by (nonlinear_arith)
        requires
            w == v * v,
            v >= 1real,
    ;
    assert(b * s == a && c * w == a && b > 0real && c > 0real) by (nonlinear_arith)
        requires
            b == a / s,
            c == a / w,
            a > 0real,
            s > 0real,
            w >= 1real,
    ;
    assert(c * (l - 3real) <= b * l && b * l <= c * (l + 3real)) by (nonlinear_arith)
        requires
            l == 9007199254740992real,
            b * s == a,
            c * w == a,
            b > 0real,
            c > 0real,
            w > 0real,
            s > 0real,
            w * (l - 2real) <= s * l,
            s * l <= w * (l + 2real),
    {
        assert(c * w * l == b * (s * l));
        assert(b * (s * l) <= b * (w * (l + 2real)));
        assert((c * l) * w <= (b * (l + 2real)) * w);
        assert(c * l <= b * (l + 2real));
        assert(b * (w * (l - 2real)) <= b * (s * l));
        assert((b * (l - 2real)) * w <= (c * l) * w);
        assert(b * (l - 2real) <= c * l);
    }
    let e = value::absolute(q - b);
    let (p, x, y) = (value::speck() * l, d + q, 2real * v + c);
    assert(p == 1real / 2048real);
    assert(e * l <= b + p);
    assert(y * (l - 5real) <= x * l && x * l <= y * (l + 5real)) by (nonlinear_arith)
        requires
            l == 9007199254740992real,
            x == d + q,
            y == 2real * v + c,
            v >= 1real,
            c > 0real,
            p == 1real / 2048real,
            e == q - b && q >= b || e == b - q && q < b,
            e * l <= b + p,
            c * (l - 3real) <= b * l,
            b * l <= c * (l + 3real),
            (2real * v) * (l - 2real) <= d * l,
            d * l <= (2real * v) * (l + 2real),
    ;
}

/// A step is the exact one, up to eleven roundings.
pub proof fn lemma_step_value(a: Binary64, x: Binary64)
    requires
        a.is_magnitude(),
        0real < a.value() <= 20000000000000000000real,
        x.is_magnitude(),
        1real <= x.value() <= 20000000real,
    ensures
        cube_root::newton_step(a, x).is_magnitude(),
        value::near(cube_root::newton_step(a, x).value(), exact_step(a.value(), x.value()), 11real),
{
    reveal(exact_step);
    let (r, v) = (a.value(), x.value());
    let (two, three) = (Binary64::of(2), Binary64::of(3));
    value::lemma_integer_value(2);
    value::lemma_integer_value(3);
    let w = v * v;
    assert(1real <= w <= 400000000000000real) by (nonlinear_arith)
        requires
            w == v * v,
            1real <= v <= 20000000real,
    ;
    let square = x.product(x);
    value::lemma_product_value(x, x);
    value::lemma_rounding_is_near(square.value(), w);
    let s = square.value();
    value::lemma_near_bounds(s, w, 2real);
    let q = a.quotient(square);
    assert(r / s <= 40000000000000000000real) by (nonlinear_arith)
        requires
            2real * s >= 1real,
            0real < r <= 20000000000000000000real,
    ;
    value::lemma_quotient_value(a, square);
    value::lemma_value(q);
    let d = two.product(x);
    value::lemma_product_value(two, x);
    value::lemma_rounding_is_near(d.value(), 2real * v);
    lemma_rounded_terms(r, v, s, q.value(), d.value());
    let exact = 2real * v + r / w;
    assert(0real <= r / w <= 20000000000000000000real) by (nonlinear_arith)
        requires
            w >= 1real,
            0real < r <= 20000000000000000000real,
    ;
    let sum = d.value() + q.value();
    value::lemma_near_bounds(sum, exact, 5real);
    assert(1real <= sum <= 50000000000000000000real);
    let m = d.sum(q);
    value::lemma_sum_value(d, q);
    value::lemma_rounding_is_near(m.value(), sum);
    value::lemma_near_chain(m.value(), sum, exact, 2real, 5real);
    let third = m.value() / 3real;
    value::lemma_near_bounds(m.value(), exact, 8real);
    assert(1real / 2real <= third <= 50000000000000000000real);
    let y = m.quotient(three);
    value::lemma_quotient_value(m, three);
    value::lemma_rounding_is_near(y.value(), third);
    let c = 1real / 3real;
    value::lemma_near_scaled(m.value(), exact, 8real, c);
    assert(c * m.value() == third && c * exact == exact / 3real);
    value::lemma_near_chain(y.value(), third, exact / 3real, 2real, 8real);
}

/// `v` is no further below the cube root of `a` than eleven parts in `2^53`.
#[verifier::opaque]
pub open spec fn not_below(v: real, a: real) -> bool {
    let (p, q) = (v * value::limit(), value::limit() - 11real);
    p * p * p >= a * (q * q * q)
}

/// `v` is less than twice the tolerance above the cube root of `a`.
#[verifier::opaque]
pub open spec fn not_far_above(v: real, a: real, tolerance: real) -> bool {
    let w = v - 2real * tolerance;
    w > 0real ==> w * w * w < a
}

/// Whether the method ends with the step from `x` to `next`.
pub open spec fn ends(x: Binary64, next: Binary64, tolerance: Binary64) -> bool {
    cube_root::magnitude(next.difference(x)).less(tolerance)
}

/// What the comparison of two iterates says of their values.
pub proof fn lemma_ends(x: Binary64, next: Binary64, tolerance: Binary64)
    requires
        x.is_magnitude(),
        next.is_magnitude(),
        tolerance.is_magnitude(),
        tolerance.value() >= 1real,
        x.value() <= 1000000000000000000real,
        next.value() <= 1000000000000000000real,
    ensures
        ({
            let apart = value::absolute(next.value() - x.value());
            let l = value::limit();
            &&& ends(x, next, tolerance) ==> apart * l <= tolerance.value() * (l + 3real)
            &&& !ends(x, next, tolerance) ==> apart * 1000real >= tolerance.value() * 999real
        }),
{
    value::lemma_value(x);
    value::lemma_value(next);
    value::lemma_difference_value(next, x);
    let d = next.difference(x);
    let zero = Binary64::zero(false);
    value::lemma_zero_value(false);
    value::lemma_less_value(d, zero);
    let m = cube_root::magnitude(d);
    assert(d.negated().value() == -d.value());
    assert(m.value() == value::absolute(d.value()));
    value::lemma_less_value(m, tolerance);
    reveal(value::is_rounding);
    let (exact, t, l) = (next.value() - x.value(), tolerance.value(), value::limit());
    let (apart, size) = (value::absolute(exact), m.value());
    let e = value::absolute(d.value() - exact);
    assert(value::speck() * l == 1real / 2048real);
    assert(e * l <= apart + 1real / 2048real);
    assert(size <= apart + e && apart <= size + e);
    assert(size < t ==> apart * l <= t * (l + 3real)) by (nonlinear_arith)
        requires
            l == 9007199254740992real,
            e * l <= apart + 1real / 2048real,
            apart <= size + e,
            t >= 1real,
    ;
    assert(size >= t ==> apart * 1000real >= t * 999real) by (nonlinear_arith)
        requires
            l == 9007199254740992real,
            e * l <= apart + 1real / 2048real,
            size <= apart + e,
            t >= 1real,
    ;
}

pub proof fn lemma_cubes_ordered(p: real, q: real)
    requires
        0real <= p <= q,
    ensures
        p * p * p <= q * q * q,
{
    assert(p * p * p <= q * q * q) by (nonlinear_arith)
        requires
            0real <= p <= q,
    {
        assert(p * p <= q * q);
        assert(p * p * p <= q * q * p);
        assert(q * q * p <= q * q * q);
    }
}

/// No step falls below the cube root by more than its rounding.
pub proof fn lemma_step_not_below(a: real, v: real, y: real)
    requires
        a > 0real,
        v > 0real,
        value::near(y, exact_step(a, v), 11real),
    ensures
        not_below(y, a),
{
    reveal(value::near);
    reveal(not_below);
    lemma_exact_step(a, v);
    let n = exact_step(a, v);
    let l = value::limit();
    let (p, q) = (y * l, l - 11real);
    let nq = n * q;
    assert(nq >= 0real && nq <= p) by (nonlinear_arith)
        requires
            nq == n * q,
            nq <= p,
            n >= 0real,
            q >= 0real,
    ;
    lemma_cubes_ordered(nq, p);
    let (n3, q3) = (n * n * n, q * q * q);
    assert(nq * nq * nq == n3 * q3) by (nonlinear_arith)
        requires
            nq == n * q,
            n3 == n * n * n,
            q3 == q * q * q,
    ;
    assert(q3 >= 0real) by (nonlinear_arith)
        requires
            q3 == q * q * q,
            q >= 0real,
    ;
    assert(n3 * q3 >= a * q3) by (nonlinear_arith)
        requires
            n3 >= a,
            q3 >= 0real,
    ;
}

/// From the cube root up, a step does not rise.
pub proof fn lemma_step_does_not_rise(a: real, v: real, y: real)
    requires
        a > 0real,
        1real <= v <= 20000000real,
        not_below(v, a),
        value::near(y, exact_step(a, v), 11real),
    ensures
        y * 100real <= v * 100real + 1real,
{
    reveal(value::near);
    reveal(not_below);
    lemma_exact_step(a, v);
    let n = exact_step(a, v);
    let l = value::limit();
    let (v2, v3) = (v * v, v * v * v);
    let (p, q) = (v * l, l - 11real);
    assert(p * p * p == v3 * (l * l * l)) by (nonlinear_arith)
        requires
            p == v * l,
            v3 == v * v * v,
    ;
    assert(a * l <= v3 * (l + 40real)) by (nonlinear_arith)
        requires
            l == 9007199254740992real,
            q == 9007199254740981real,
            v3 * (l * l * l) >= a * (q * q * q),
            a > 0real,
    ;
    assert(v2 > 0real && v3 == v * v2) by (nonlinear_arith)
        requires
            v2 == v * v,
            v3 == v * v * v,
            v >= 1real,
    ;
    assert(3real * n * l <= v * (3real * l + 40real)) by (nonlinear_arith)
        requires
            l == 9007199254740992real,
            3real * n * v2 == 2real * v3 + a,
            a * l <= v3 * (l + 40real),
            v3 == v * v2,
            v2 > 0real,
    {
        assert((3real * n * l) * v2 == (2real * v3 + a) * l);
        assert((2real * v3 + a) * l <= (v * (3real * l + 40real)) * v2);
    }
    assert(y * 100real <= v * 100real + 1real) by (nonlinear_arith)
        requires
            l == 9007199254740992real,
            3real * n * l <= v * (3real * l + 40real),
            y * l <= n * (l + 11real),
            1real <= v <= 20000000real,
    ;
}

/// Two iterates within the tolerance of each other leave the later one less than twice the
/// tolerance above the cube root; here in units of the tolerance.
proof fn lemma_close_iterates(a: real, v: real, n: real, y: real)
    requires
        v > 0real,
        3real * n * (v * v) == 2real * (v * v * v) + a,
        y * value::limit() <= n * (value::limit() + 11real),
        (y - v) * value::limit() <= value::limit() + 3real,
        (v - y) * value::limit() <= value::limit() + 3real,
        2real < y <= 23real,
        a * value::top() >= 1real,
    ensures
        (y - 2real) * (y - 2real) * (y - 2real) < a,
{
    let l = value::limit();
    let w = y - 2real;
    let w3 = w * w * w;
    if w * l < 1000real {
        let b = 1000real / 9007199254740992real;
        lemma_cubes_ordered(w, b);
        assert(b * b * b * 1267650600228229401496703205376real < 1real) by (nonlinear_arith)
            requires
                b == 1000real / 9007199254740992real,
        ;
    } else {
        let c = 800real / 9007199254740992real;
        let g = 3real * n - 2real * v;
        assert(g >= w - c) by (nonlinear_arith)
            requires
                l == 9007199254740992real,
                c == 800real / 9007199254740992real,
                g == 3real * n - 2real * v,
                w == y - 2real,
                y * l <= n * (l + 11real),
                (v - y) * l <= l + 3real,
                y <= 23real,
        ;
        let h = w + 1real / 2real;
        assert(v >= h);
        let (v2, h2) = (v * v, h * h);
        assert(v2 >= h2 && h2 >= 0real) by (nonlinear_arith)
            requires
                v2 == v * v,
                h2 == h * h,
                v >= h,
                h >= 0real,
        ;
        assert(a == v2 * g) by (nonlinear_arith)
            requires
                g == 3real * n - 2real * v,
                v2 == v * v,
                3real * n * (v * v) == 2real * (v * v * v) + a,
        ;
        let f = w - c;
        assert(v2 * g >= h2 * f) by (nonlinear_arith)
            requires
                v2 >= h2,
                h2 >= 0real,
                g >= f,
                f >= 0real,
        {
            assert(v2 * g >= v2 * f);
            assert(v2 * f >= h2 * f);
        }
        assert(h2 * f > w3) by (nonlinear_arith)
            requires
                h2 == h * h,
                h == w + 1real / 2real,
                f == w - c,
                w3 == w * w * w,
                5real * c <= 4real * w,
                0real < c <= 1real / 1000real,
        {
            let w2 = w * w;
            assert(h2 == w2 + w + 1real / 4real);
            assert(h2 * f == w3 + w2 + w / 4real - c * w2 - c * w - c / 4real);
            assert(c * w2 <= w2 / 1000real);
            assert(c * w <= w / 1000real);
        }
    }
}

/// Where the method ends, it is less than twice the tolerance above the cube root.
proof fn lemma_end_not_far_above(a: real, v: real, y: real, t: real)
    requires
        a > 0real,
        t >= 1real,
        v >= t,
        v <= 21real * t,
        a * value::top() >= t * t * t,
        value::near(y, exact_step(a, v), 11real),
        value::absolute(y - v) * value::limit() <= t * (value::limit() + 3real),
    ensures
        not_far_above(y, a, t),
{
    reveal(value::near);
    reveal(not_far_above);
    lemma_exact_step(a, v);
    let n = exact_step(a, v);
    let l = value::limit();
    if y > 2real * t {
        let t3 = t * t * t;
        let (b, u, m, z) = (a / t3, v / t, n / t, y / t);
        assert(t3 > 0real) by (nonlinear_arith)
            requires
                t3 == t * t * t,
                t >= 1real,
        ;
        assert(b * t3 == a && u * t == v && m * t == n && z * t == y) by (nonlinear_arith)
            requires
                b == a / t3,
                u == v / t,
                m == n / t,
                z == y / t,
                t3 > 0real,
                t >= 1real,
        ;
        assert(b * 1267650600228229401496703205376real >= 1real) by (nonlinear_arith)
            requires
                b * t3 == a,
                a * 1267650600228229401496703205376real >= t3,
                t3 > 0real,
        ;
        assert(3real * m * (u * u) == 2real * (u * u * u) + b) by (nonlinear_arith)
            requires
                b * t3 == a,
                u * t == v,
                m * t == n,
                t3 == t * t * t,
                t3 > 0real,
                3real * n * (v * v) == 2real * (v * v * v) + a,
        {
            let p = 3real * m * (u * u);
            let q = 2real * (u * u * u) + b;
            assert(3real * n * (v * v) == p * t3);
            assert(v * v * v == (u * u * u) * t3);
            assert(2real * (v * v * v) + a == q * t3);
        }
        assert(u >= 1real && u <= 21real) by (nonlinear_arith)
            requires
                u * t == v,
                v >= t,
                v <= 21real * t,
                t >= 1real,
        ;
        assert(z * l <= m * (l + 11real)) by (nonlinear_arith)
            requires
                z * t == y,
                m * t == n,
                t >= 1real,
                l == 9007199254740992real,
                y * l <= n * (l + 11real),
        ;
        assert((z - u) * l <= l + 3real && (u - z) * l <= l + 3real) by (nonlinear_arith)
            requires
                z * t == y,
                u * t == v,
                t >= 1real,
                l == 9007199254740992real,
                (y - v) * l <= t * (l + 3real),
                (v - y) * l <= t * (l + 3real),
        ;
        assert(2real < z) by (nonlinear_arith)
            requires
                z * t == y,
                y > 2real * t,
                t >= 1real,
        ;
        lemma_close_iterates(b, u, m, z);
        let (s, w) = (z - 2real, y - 2real * t);
        assert(w * w * w < a) by (nonlinear_arith)
            requires
                s == z - 2real,
                w == y - 2real * t,
                z * t == y,
                s * s * s < b,
                b * t3 == a,
                t3 == t * t * t,
                t3 > 0real,
        {
            let s3 = s * s * s;
            assert(w == s * t);
            assert(w * w * w == s3 * t3);
            assert(s3 * t3 < b * t3);
        }
    }
}

/// From an iterate that is not below the cube root, the method comes near it in as many steps as
/// the iterate is tolerances high.
proof fn lemma_newton_is_near(a: Binary64, x: Binary64, tolerance: Binary64, n: nat)
    requires
        a.is_magnitude(),
        0real < a.value() <= 1000000000000000000real,
        tolerance.is_magnitude(),
        1real <= tolerance.value() <= 50000real,
        a.value() * value::top() >= tolerance.value() * tolerance.value() * tolerance.value(),
        x.is_magnitude(),
        tolerance.value() <= x.value(),
        x.value() * 1000real <= tolerance.value() * (n as real * 999real + 1900real),
        n <= 19,
        not_below(x.value(), a.value()),
    ensures
        ({
            let r = cube_root::newton(a, x, tolerance, n);
            &&& r.is_magnitude()
            &&& not_below(r.value(), a.value())
            &&& not_far_above(r.value(), a.value(), tolerance.value())
        }),
    decreases n,
{
    let (c, v, t, k) = (a.value(), x.value(), tolerance.value(), n as real);
    assert(v <= 21real * t) by (nonlinear_arith)
        requires
            v * 1000real <= t * (k * 999real + 1900real),
            k <= 19real,
            t >= 1real,
    ;
    lemma_step_value(a, x);
    let next = cube_root::newton_step(a, x);
    let y = next.value();
    lemma_step_not_below(c, v, y);
    lemma_step_does_not_rise(c, v, y);
    lemma_ends(x, next, tolerance);
    if ends(x, next, tolerance) {
        lemma_end_not_far_above(c, v, y, t);
    } else if n == 0 {
        assert(v * 1000real <= t * 1900real) by (nonlinear_arith)
            requires
                v * 1000real <= t * (k * 999real + 1900real),
                k == 0real,
        ;
        reveal(not_far_above);
    } else {
        lemma_exact_step(c, v);
        value::lemma_near_bounds(y, exact_step(c, v), 11real);
        let j = (n - 1) as real;
        assert(y * 1000real <= t * (j * 999real + 1900real)) by (nonlinear_arith)
            requires
                v * 1000real <= t * (k * 999real + 1900real),
                j == k - 1real,
                (v - y) * 1000real >= t * 999real,
        ;
        lemma_newton_is_near(a, next, tolerance, (n - 1) as nat);
    }
}

/// The value of `m * 2^-k`.
pub proof fn lemma_literal_value(m: u64, k: nat, d: nat)
    requires
        0 < k <= 60,
        d == pow2(k),
    ensures
        ({
            let x = Binary64::positive(m, (-k) as i32);
            &&& x is Finite
            &&& !x.sign()
            &&& x.value() * (d as real) == m as real
        }),
{
    let x = Binary64::positive(m, (-k) as i32);
    value::lemma_value(x);
    assert(x.num() == m * 1);
}

/// Where the method starts: at the root of seven tenths of the largest number of the range, in
/// units of the tolerance.
pub proof fn lemma_start(a: Binary64)
    requires
        a.is_magnitude(),
        0real < a.value() < 1000000000000000000real,
    ensures
        ({
            let (tolerance, x) = cube_root::start(a);
            let (c, t, v) = (a.value(), tolerance.value(), x.value());
            &&& tolerance.is_magnitude()
            &&& x.is_magnitude()
            &&& 1real <= t <= 50000real
            &&& {
                ||| t == 1real && 8879real <= v * 1000real <= 8880real && c < 1000real
                ||| {
                    &&& t >= 5real
                    &&& 17758real * t <= v * 1000real <= 17759real * t
                    &&& 8real * (t * t * t) <= c < 8000real * (t * t * t)
                }
            }
        }),
{
    cube_root::lemma_starting_points();
    lemma2_to64();
    lemma2_to64_rest();
    value::lemma_integer_value(1_000);
    value::lemma_integer_value(1_000_000);
    value::lemma_integer_value(1_000_000_000);
    value::lemma_integer_value(1_000_000_000_000);
    value::lemma_integer_value(1_000_000_000_000_000);
    value::lemma_less_value(a, Binary64::of(1_000));
    value::lemma_less_value(a, Binary64::of(1_000_000));
    value::lemma_less_value(a, Binary64::of(1_000_000_000));
    value::lemma_less_value(a, Binary64::of(1_000_000_000_000));
    value::lemma_less_value(a, Binary64::of(1_000_000_000_000_000));
    value::lemma_integer_value(1);
    value::lemma_integer_value(5);
    value::lemma_integer_value(50);
    value::lemma_integer_value(500);
    value::lemma_integer_value(5_000);
    value::lemma_integer_value(50_000);
    lemma_literal_value(0x11_c211_887d_709f, 49, pow2(49));
    lemma_literal_value(0x16_3295_ea9c_ccc6, 46, pow2(46));
    lemma_literal_value(0x1b_bf3b_6543_fff7, 43, pow2(43));
    lemma_literal_value(0x11_5785_1f4a_7ffa, 39, pow2(39));
    lemma_literal_value(0x15_ad66_671d_1ff7, 36, pow2(36));
    lemma_literal_value(0x1b_18c0_00e4_67f4, 33, pow2(33));
    let c = a.value();
    let (tolerance, x) = cube_root::start(a);
    let (t, v) = (tolerance.value(), x.value());
    if c < 1000real {
        assert(t == 1real);
        assert(8879real <= v * 1000real <= 8880real);
    } else {
        let b = if c < 1000000real {
            5real
        } else if c < 1000000000real {
            50real
        } else if c < 1000000000000real {
            500real
        } else if c < 1000000000000000real {
            5000real
        } else {
            50000real
        };
        assert(t == b);
        assert(17758real * b <= v * 1000real <= 17759real * b);
        assert(8real * (b * b * b) <= c < 8000real * (b * b * b));
    }
}

/// The first step leads to at most 20.3 tolerances.
pub proof fn lemma_first_step(a: real, v: real, t: real)
    requires
        a > 0real,
        t >= 1real,
        (17758real * t <= v * 1000real <= 17759real * t && a < 8000real * (t * t * t)) || (
        8879real * t <= v * 1000real <= 8880real * t && a < 1000real * (t * t * t)),
    ensures
        10real * exact_step(a, v) <= 203real * t,
{
    assert(v > 0real);
    lemma_exact_step(a, v);
    let n = exact_step(a, v);
    let (v2, t2, v3, t3) = (v * v, t * t, v * v * v, t * t * t);
    assert(v2 > 0real && v3 == v * v2 && t3 == t * t2 && t2 > 0real) by (nonlinear_arith)
        requires
            v2 == v * v,
            t2 == t * t,
            v3 == v * v * v,
            t3 == t * t * t,
            v > 0real,
            t >= 1real,
    ;
    let (k, b) = if 17758real * t <= v * 1000real {
        assert(v2 * 1000real >= 315300real * t2) by (nonlinear_arith)
            requires
                v2 == v * v,
                t2 == t * t,
                17758real * t <= v * 1000real,
                t >= 1real,
        ;
        (2538real / 100real, 315300real)
    } else {
        assert(v2 * 1000real >= 78800real * t2) by (nonlinear_arith)
            requires
                v2 == v * v,
                t2 == t * t,
                8879real * t <= v * 1000real,
                t >= 1real,
        ;
        (13real, 78800real)
    };
    let tv = t * v2;
    assert(tv * 1000real >= b * t3) by (nonlinear_arith)
        requires
            tv == t * v2,
            t3 == t * t2,
            v2 * 1000real >= b * t2,
            t >= 1real,
    ;
    assert(a <= k * tv);
    let rise = 2real * v + k * t;
    assert(3real * n <= rise) by (nonlinear_arith)
        requires
            3real * n * v2 == 2real * v3 + a,
            a <= k * tv,
            tv == t * v2,
            v3 == v * v2,
            v2 > 0real,
            rise == 2real * v + k * t,
    {
        assert((3real * n) * v2 <= rise * v2);
    }
}

/// A step for a number that is all but 0 takes a third off.
proof fn lemma_tiny_step(a: real, v: real)
    requires
        0real < a,
        a * 1000000real <= 1real,
        v >= 1real,
    ensures
        2real * v <= 3real * exact_step(a, v) <= 2real * v + 1real / 1000000real,
{
    lemma_exact_step(a, v);
    let n = exact_step(a, v);
    let (v2, v3) = (v * v, v * v * v);
    assert(v2 >= 1real && v3 == v * v2) by (nonlinear_arith)
        requires
            v2 == v * v,
            v3 == v * v * v,
            v >= 1real,
    ;
    assert(3real * n <= 2real * v + a) by (nonlinear_arith)
        requires
            3real * n * v2 == 2real * v3 + a,
            v3 == v * v2,
            v2 >= 1real,
            a > 0real,
    {
        assert(a <= a * v2);
        assert((3real * n) * v2 <= (2real * v + a) * v2);
    }
}

/// The root of a number that is all but 0: the method ends with the fourth step, below 2.
proof fn lemma_tiny_root(a: Binary64, tolerance: Binary64, x: Binary64)
    requires
        a.is_magnitude(),
        0real < a.value(),
        a.value() * 1000000real <= 1real,
        tolerance.is_magnitude(),
        tolerance.value() == 1real,
        x.is_magnitude(),
        8879real <= x.value() * 1000real <= 8880real,
    ensures
        ({
            let r = cube_root::newton(a, x, tolerance, 20);
            &&& r.is_magnitude()
            &&& not_below(r.value(), a.value())
            &&& not_far_above(r.value(), a.value(), 1real)
        }),
{
    let x1 = lemma_tiny_iterate(a, x, tolerance);
    let x2 = lemma_tiny_iterate(a, x1, tolerance);
    let x3 = lemma_tiny_iterate(a, x2, tolerance);
    let x4 = lemma_tiny_iterate(a, x3, tolerance);
    reveal_with_fuel(cube_root::newton, 4);
    assert(cube_root::newton(a, x, tolerance, 20) == x4);
    reveal(not_far_above);
}

proof fn lemma_tiny_iterate(a: Binary64, x: Binary64, tolerance: Binary64) -> (next: Binary64)
    requires
        a.is_magnitude(),
        0real < a.value(),
        a.value() * 1000000real <= 1real,
        tolerance.is_magnitude(),
        tolerance.value() == 1real,
        x.is_magnitude(),
        1real <= x.value() <= 10real,
    ensures
        next == cube_root::newton_step(a, x),
        next.is_magnitude(),
        not_below(next.value(), a.value()),
        next.value() * 1000real >= x.value() * 666real,
        next.value() * 1000real <= x.value() * 667real + 1real / 100real,
        ends(x, next, tolerance) ==> x.value() - next.value() < 1001real / 1000real,
        !ends(x, next, tolerance) ==> x.value() - next.value() >= 999real / 1000real,
{
    let next = cube_root::newton_step(a, x);
    let (c, v, y) = (a.value(), x.value(), next.value());
    lemma_step_value(a, x);
    lemma_tiny_step(c, v);
    value::lemma_near_bounds(y, exact_step(c, v), 11real);
    lemma_step_not_below(c, v, y);
    lemma_ends(x, next, tolerance);
    next
}

/// The cube root that the method finds for a number below `10^18`.
pub proof fn lemma_root_is_near(a: Binary64)
    requires
        a.is_magnitude(),
        0real < a.value() < 1000000000000000000real,
    ensures
        ({
            let (tolerance, x) = cube_root::start(a);
            let r = cube_root::newton(a, x, tolerance, 20);
            &&& r.is_magnitude()
            &&& not_below(r.value(), a.value())
            &&& not_far_above(r.value(), a.value(), tolerance.value())
        }),
{
    let (tolerance, x) = cube_root::start(a);
    let (c, t, v) = (a.value(), tolerance.value(), x.value());
    let t3 = t * t * t;
    lemma_start(a);
    assert(t3 >= 1real && (t == 1real ==> t3 == 1real)) by (nonlinear_arith)
        requires
            t3 == t * t * t,
            t >= 1real,
    ;
    if c * value::top() < t3 {
        lemma_tiny_root(a, tolerance, x);
    } else {
        lemma_step_value(a, x);
        let next = cube_root::newton_step(a, x);
        let y = next.value();
        lemma_step_not_below(c, v, y);
        lemma_first_step(c, v, t);
        lemma_exact_step(c, v);
        value::lemma_near_bounds(y, exact_step(c, v), 11real);
        lemma_ends(x, next, tolerance);
        if ends(x, next, tolerance) {
            lemma_end_not_far_above(c, v, y, t);
        } else {
            let k = 19nat as real;
            assert(y * 1000real <= t * (k * 999real + 1900real)) by (nonlinear_arith)
                requires
                    k == 19real,
                    y * 1000real <= t * 20881real,
            ;
            lemma_newton_is_near(a, next, tolerance, 19);
        }
    }
}

} // verus!
