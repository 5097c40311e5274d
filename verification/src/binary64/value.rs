//! The real number that a binary64 number stands for, and how far an operation is from the exact
//! one.

use vstd::prelude::*;
use vstd::arithmetic::power2::*;
use crate::dyadic;
use super::{accuracy, monotone};
use super::{Binary64, LIMIT};

verus! {

/// A ratio of natural numbers as a real number.
#[verifier::opaque]
pub open spec fn ratio(num: nat, den: nat) -> real {
    num as real / den as real
}

/// `2^53` as a real number.
pub open spec fn limit() -> real {
    9007199254740992real
}

/// `2^-64`: no rounding of a small number moves it further.
pub open spec fn speck() -> real {
    1real / 18446744073709551616real
}

/// `x` differs from `y`, which is not negative, by at most `k` parts in `2^53`.
#[verifier::opaque]
pub open spec fn near(x: real, y: real, k: real) -> bool {
    &&& y * (limit() - k) <= x * limit()
    &&& x * limit() <= y * (limit() + k)
}

pub open spec fn absolute(x: real) -> real {
    if x < 0real {
        -x
    } else {
        x
    }
}

/// `x` is `y` up to one part in `2^53` and a speck.
#[verifier::opaque]
pub open spec fn is_rounding(x: real, y: real) -> bool {
    absolute(x - y) * limit() <= absolute(y) + speck() * limit()
}

impl Binary64 {
    /// The real number that a finite number stands for.
    pub open spec fn value(self) -> real {
        if self.sign() {
            -ratio(self.num(), self.den())
        } else {
            ratio(self.num(), self.den())
        }
    }

    /// A finite number that is not negative.
    pub open spec fn is_magnitude(self) -> bool {
        self is Finite && self.wf() && !self.sign()
    }
}

/// What a ratio is.
pub proof fn lemma_ratio(num: nat, den: nat)
    requires
        den > 0,
    ensures
        ratio(num, den) >= 0real,
        ratio(num, den) * (den as real) == num as real,
{
    reveal(ratio);
    let (n, d) = (num as real, den as real);
    assert(n / d * d == n && n / d >= 0real) by (nonlinear_arith)
        requires
            n >= 0real,
            d > 0real,
    ;
}

pub proof fn lemma_value(a: Binary64)
    requires
        a is Finite,
    ensures
        a.den() > 0,
        !a.sign() ==> a.value() >= 0real,
        a.value() * (a.den() as real) == a.signed_num() as real,
{
    dyadic::lemma_up_pos(a->exponent as int);
    lemma_ratio(a.num(), a.den());
    let (x, n, d) = (ratio(a.num(), a.den()), a.num() as real, a.den() as real);
    assert((-x) * d == -n) by (nonlinear_arith)
        requires
            x * d == n,
    ;
}

/// Comparisons compare the values.
pub proof fn lemma_less_value(a: Binary64, b: Binary64)
    requires
        a is Finite,
        b is Finite,
    ensures
        a.less(b) <==> a.value() < b.value(),
{
    lemma_value(a);
    lemma_value(b);
    lemma_cross(a.signed_num(), a.den(), b.signed_num(), b.den(), a.value(), b.value());
}

proof fn lemma_cross(an: int, ad: nat, bn: int, bd: nat, x: real, y: real)
    requires
        ad > 0,
        bd > 0,
        x * (ad as real) == an as real,
        y * (bd as real) == bn as real,
    ensures
        an * bd < bn * ad <==> x < y,
{
    let (p, q) = (an * bd, bn * ad);
    let (ran, rad, rbn, rbd) = (an as real, ad as real, bn as real, bd as real);
    assert(p as real == ran * rbd && q as real == rbn * rad) by (nonlinear_arith)
        requires
            p == an * bd,
            q == bn * ad,
            ran == an as real,
            rbn == bn as real,
            rad == ad as real,
            rbd == bd as real,
    ;
    let (rp, rq) = (p as real, q as real);
    assert(rp < rq <==> x < y) by (nonlinear_arith)
        requires
            rp == ran * rbd,
            rq == rbn * rad,
            x * rad == ran,
            y * rbd == rbn,
            rad > 0real,
            rbd > 0real,
    {
        let k = rad * rbd;
        assert(rp == x * k);
        assert(rq == y * k);
        assert(k > 0real);
        assert(x < y <==> x * k < y * k);
    }
}

/// The sign has no part in rounding.
proof fn lemma_rounded_sign(num: nat, den: nat)
    ensures
        Binary64::rounded(true, num, den) == Binary64::rounded(false, num, den).negated(),
{
}

/// Rounding changes a number by at most one part in `2^53` and a speck.
pub proof fn lemma_rounded_value(negative: bool, num: nat, den: nat)
    requires
        den > 0,
        num <= den * pow2(300),
    ensures
        ({
            let r = Binary64::rounded(negative, num, den);
            let q = ratio(num, den);
            &&& r is Finite
            &&& r.wf()
            &&& r.sign() == negative
            &&& is_rounding(r.value(), if negative {
                -q
            } else {
                q
            })
        }),
{
    let r = Binary64::rounded(false, num, den);
    let q = ratio(num, den);
    lemma_ratio(num, den);
    lemma_rounded_sign(num, den);
    if den <= num * 0x1_0000_0000_0000_0000 {
        accuracy::lemma_wide_range(num, den);
        accuracy::law_relative_error(false, num, den);
        lemma_value(r);
        lemma_relative_near(r.num(), r.den(), num, den);
        lemma_near_is_rounding(r.value(), q);
    } else {
        let e = -64int;
        lemma2_to64();
        assert(dyadic::up(e) == 1 && dyadic::down(e) == 0x1_0000_0000_0000_0000);
        let (u, v) = (dyadic::up(e), dyadic::down(e));
        assert(num * v <= 1 * u * den) by (nonlinear_arith)
            requires
                u == 1,
                v == 0x1_0000_0000_0000_0000,
                den > num * 0x1_0000_0000_0000_0000,
        ;
        monotone::law_rounding_keeps_upper_bound(num, den, 1, e);
        assert(r.num() * 0x1_0000_0000_0000_0000 <= r.den()) by (nonlinear_arith)
            requires
                u == 1,
                v == 0x1_0000_0000_0000_0000,
                r.num() * v <= 1 * u * r.den(),
        ;
        lemma_value(r);
        lemma_small_value(r.num(), r.den());
        lemma_small_value(num, den);
        lemma_specks(r.value(), q);
    }
    if negative {
        assert(is_rounding(-r.value(), -q)) by {
            reveal(is_rounding);
        }
    }
}

proof fn lemma_small_value(n: nat, d: nat)
    requires
        d > 0,
        n * 0x1_0000_0000_0000_0000 <= d,
    ensures
        0real <= ratio(n, d) <= speck(),
{
    reveal(ratio);
    let (rn, rd) = (n as real, d as real);
    let x = rn / rd;
    assert(rn * 18446744073709551616real <= rd) by (nonlinear_arith)
        requires
            rn == n as real,
            rd == d as real,
            n * 0x1_0000_0000_0000_0000 <= d,
    ;
    assert(0real <= x && x * 18446744073709551616real <= 1real) by (nonlinear_arith)
        requires
            rd > 0real,
            rn >= 0real,
            x == rn / rd,
            rn * 18446744073709551616real <= rd,
    ;
}

proof fn lemma_specks(x: real, y: real)
    requires
        0real <= x <= speck(),
        0real <= y <= speck(),
    ensures
        is_rounding(x, y),
{
    reveal(is_rounding);
    let (s, l) = (speck(), limit());
    let d = absolute(x - y);
    assert(d * l <= s * l) by (nonlinear_arith)
        requires
            d <= s,
            l >= 0real,
    ;
}

proof fn lemma_near_is_rounding(x: real, y: real)
    requires
        near(x, y, 1real),
        y >= 0real,
    ensures
        is_rounding(x, y),
{
    reveal(near);
    reveal(is_rounding);
    let (s, l) = (speck(), limit());
    let d = absolute(x - y);
    assert(d * l <= y + s * l) by (nonlinear_arith)
        requires
            d == x - y || d == y - x,
            y * (l - 1real) <= x * l,
            x * l <= y * (l + 1real),
            s >= 0real,
            l >= 0real,
    ;
}

proof fn lemma_relative_near(rn: nat, rd: nat, num: nat, den: nat)
    requires
        rd > 0,
        den > 0,
        rn * den * LIMIT <= num * rd * (LIMIT + 1),
        num * rd * (LIMIT - 1) <= rn * den * LIMIT,
    ensures
        near(ratio(rn, rd), ratio(num, den), 1real),
{
    reveal(ratio);
    let (a, b, l) = (rn * den, num * rd, limit());
    let (rrn, rrd, rnum, rden) = (rn as real, rd as real, num as real, den as real);
    let (ra, rb) = (a as real, b as real);
    assert(ra == rrn * rden && rb == rnum * rrd) by (nonlinear_arith)
        requires
            ra == a as real,
            rb == b as real,
            a == rn * den,
            b == num * rd,
            rrn == rn as real,
            rnum == num as real,
            rrd == rd as real,
            rden == den as real,
    ;
    assert(ra * l <= rb * (l + 1real) && rb * (l - 1real) <= ra * l) by (nonlinear_arith)
        requires
            ra == a as real,
            rb == b as real,
            l == 9007199254740992real,
            a * 9007199254740992 <= b * 9007199254740993,
            b * 9007199254740991 <= a * 9007199254740992,
    ;
    let (x, q) = (rrn / rrd, rnum / rden);
    assert(x * rrd == rrn && q * rden == rnum) by (nonlinear_arith)
        requires
            x == rrn / rrd,
            q == rnum / rden,
            rrd > 0real,
            rden > 0real,
    ;
    let k = rrd * rden;
    assert(ra == x * k && rb == q * k && k > 0real) by (nonlinear_arith)
        requires
            ra == rrn * rden,
            rb == rnum * rrd,
            x * rrd == rrn,
            q * rden == rnum,
            k == rrd * rden,
            rrd > 0real,
            rden > 0real,
    ;
    assert(q * (l - 1real) <= x * l && x * l <= q * (l + 1real)) by (nonlinear_arith)
        requires
            ra == x * k,
            rb == q * k,
            k > 0real,
            ra * l <= rb * (l + 1real),
            rb * (l - 1real) <= ra * l,
    ;
    assert(near(x, q, 1real)) by {
        reveal(near);
    }
}

/// `2^100`.
pub open spec fn top() -> real {
    1267650600228229401496703205376real
}

/// `2^300`: no value here is beyond it.
pub open spec fn summit() -> real {
    1267650600228229401496703205376real * 1267650600228229401496703205376real
        * 1267650600228229401496703205376real
}

pub proof fn lemma_summit()
    ensures
        pow2(300) == 1267650600228229401496703205376 * 1267650600228229401496703205376
            * 1267650600228229401496703205376,
        pow2(300) as real == summit(),
{
    lemma2_to64();
    lemma2_to64_rest();
    lemma_pow2_adds(50, 50);
    lemma_pow2_adds(100, 100);
    lemma_pow2_adds(200, 100);
    assert(pow2(100) == 1267650600228229401496703205376);
    let (n, s) = (pow2(300), summit());
    assert(n as real == s) by (nonlinear_arith)
        requires
            n == 1267650600228229401496703205376 * 1267650600228229401496703205376
                * 1267650600228229401496703205376,
            s == 1267650600228229401496703205376real * 1267650600228229401496703205376real
                * 1267650600228229401496703205376real,
    ;
}

/// The rounding of a ratio whose value is known.
proof fn lemma_round_to(negative: bool, num: nat, den: nat, x: real)
    requires
        den > 0,
        x * (den as real) == num as real,
        x <= summit(),
    ensures
        ({
            let r = Binary64::rounded(negative, num, den);
            &&& r is Finite
            &&& r.wf()
            &&& r.sign() == negative
            &&& is_rounding(r.value(), if negative {
                -x
            } else {
                x
            })
        }),
{
    lemma_ratio(num, den);
    let (n, d, y) = (num as real, den as real, ratio(num, den));
    assert(x == y) by (nonlinear_arith)
        requires
            x * d == n,
            y * d == n,
            d > 0real,
    ;
    lemma_summit();
    let (t, s) = (pow2(300), summit());
    assert(n <= d * s) by (nonlinear_arith)
        requires
            x * d == n,
            d > 0real,
            x <= s,
    ;
    let dt = den * t;
    assert(dt as real == d * s) by (nonlinear_arith)
        requires
            dt == den * t,
            d == den as real,
            t as real == s,
    ;
    assert(num <= dt);
    lemma_rounded_value(negative, num, den);
}

/// The product of two values, over the product of their denominators.
proof fn lemma_product_of_values(an: nat, ad: nat, bn: nat, bd: nat, x: real, y: real)
    requires
        ad > 0,
        bd > 0,
        x * (ad as real) == an as real,
        y * (bd as real) == bn as real,
    ensures
        ad * bd > 0,
        (x * y) * ((ad * bd) as real) == (an * bn) as real,
{
    let (n, d) = (an * bn, ad * bd);
    let (ran, rad, rbn, rbd) = (an as real, ad as real, bn as real, bd as real);
    assert(d > 0) by (nonlinear_arith)
        requires
            d == ad * bd,
            ad > 0,
            bd > 0,
    ;
    assert(n as real == ran * rbn && d as real == rad * rbd) by (nonlinear_arith)
        requires
            n == an * bn,
            d == ad * bd,
            ran == an as real,
            rbn == bn as real,
            rad == ad as real,
            rbd == bd as real,
    ;
    let (rn, rd, xy) = (n as real, d as real, x * y);
    assert(xy * rd == rn) by (nonlinear_arith)
        requires
            xy == x * y,
            rn == ran * rbn,
            rd == rad * rbd,
            x * rad == ran,
            y * rbd == rbn,
    {
        assert(xy * rd == (x * rad) * (y * rbd));
    }
}

/// A product is the product of the values, rounded.
pub proof fn lemma_product_value(a: Binary64, b: Binary64)
    requires
        a is Finite,
        b is Finite,
        absolute(a.value() * b.value()) <= summit(),
    ensures
        a.product(b) is Finite,
        a.product(b).wf(),
        a.product(b).sign() == (a.sign() != b.sign()),
        is_rounding(a.product(b).value(), a.value() * b.value()),
{
    let (p, q) = (ratio(a.num(), a.den()), ratio(b.num(), b.den()));
    let (x, y) = (a.value(), b.value());
    lemma_value(a);
    lemma_value(b);
    lemma_ratio(a.num(), a.den());
    lemma_ratio(b.num(), b.den());
    assert(p * q >= 0real && (x * y == p * q || x * y == -(p * q)) && ((a.sign() == b.sign())
        ==> x * y == p * q) && ((a.sign() != b.sign()) ==> x * y == -(p * q))) by (nonlinear_arith)
        requires
            p >= 0real,
            q >= 0real,
            x == if a.sign() {
                -p
            } else {
                p
            },
            y == if b.sign() {
                -q
            } else {
                q
            },
    ;
    lemma_product_of_values(a.num(), a.den(), b.num(), b.den(), p, q);
    lemma_round_to(a.sign() != b.sign(), a.num() * b.num(), a.den() * b.den(), p * q);
}

/// A quotient is the quotient of the values, rounded.
pub proof fn lemma_quotient_value(a: Binary64, b: Binary64)
    requires
        a is Finite,
        b is Finite,
        !a.sign(),
        !b.sign(),
        b.value() > 0real,
        a.value() / b.value() <= summit(),
    ensures
        a.quotient(b).is_magnitude(),
        is_rounding(a.quotient(b).value(), a.value() / b.value()),
{
    lemma_value(a);
    lemma_value(b);
    let (x, y, w) = (a.value(), b.value(), 1real / b.value());
    let (bn, bd) = (b.num() as real, b.den() as real);
    assert(w * bn == bd && x * w == x / y && bn > 0real) by (nonlinear_arith)
        requires
            y > 0real,
            bd > 0real,
            y * bd == bn,
            w == 1real / y,
    ;
    assert(!b.is_zero()) by {
        assert(0 * dyadic::up(b->exponent as int) == 0);
    }
    lemma_product_of_values(a.num(), a.den(), b.den(), b.num(), x, w);
    lemma_round_to(false, a.num() * b.den(), a.den() * b.num(), x * w);
}

pub proof fn lemma_zero_value(negative: bool)
    ensures
        Binary64::zero(negative).value() == 0real,
{
    let r = Binary64::zero(negative);
    lemma_value(r);
    assert(r.num() == 0) by (nonlinear_arith)
        requires
            r.num() == 0 * dyadic::up(r->exponent as int),
    ;
    let (w, e) = (r.value(), r.den() as real);
    assert(w == 0real) by (nonlinear_arith)
        requires
            w * e == 0real,
            e > 0real,
    ;
}

/// A sum is the sum of the values, rounded.
pub proof fn lemma_sum_value(a: Binary64, b: Binary64)
    requires
        a is Finite,
        b is Finite,
        absolute(a.value() + b.value()) <= summit(),
    ensures
        a.sum(b) is Finite,
        a.sum(b).wf(),
        !a.sign() && !b.sign() ==> !a.sum(b).sign(),
        is_rounding(a.sum(b).value(), a.value() + b.value()),
{
    lemma_value(a);
    lemma_value(b);
    let (an, ad, bn, bd) = (a.signed_num(), a.den(), b.signed_num(), b.den());
    let (x, y) = (a.value(), b.value());
    let n = an * bd + bn * ad;
    let d = ad * bd;
    lemma_sum_of_values(an, ad, bn, bd, x, y);
    let (rn, rd, z) = (n as real, d as real, x + y);
    assert((z == 0real <==> rn == 0real) && (z > 0real <==> rn > 0real)) by (nonlinear_arith)
        requires
            z * rd == rn,
            rd > 0real,
    ;
    if n == 0 {
        lemma_zero_value(a.sign() && b.sign());
        lemma_specks(0real, 0real);
    } else if n > 0 {
        lemma_round_to(false, n as nat, d, z);
    } else {
        assert((-z) * rd == -rn) by (nonlinear_arith)
            requires
                z * rd == rn,
        ;
        lemma_round_to(true, (-n) as nat, d, -z);
        assert(-(-z) == z);
    }
    if !a.sign() && !b.sign() {
        assert(n >= 0) by (nonlinear_arith)
            requires
                n == an * bd + bn * ad,
                an >= 0,
                bn >= 0,
                ad >= 0,
                bd >= 0,
        ;
    }
}

proof fn lemma_sum_of_values(an: int, ad: nat, bn: int, bd: nat, x: real, y: real)
    requires
        ad > 0,
        bd > 0,
        x * (ad as real) == an as real,
        y * (bd as real) == bn as real,
    ensures
        ad * bd > 0,
        (x + y) * ((ad * bd) as real) == (an * bd + bn * ad) as real,
{
    let (n, d) = (an * bd + bn * ad, ad * bd);
    let (ran, rad, rbn, rbd) = (an as real, ad as real, bn as real, bd as real);
    assert(d > 0) by (nonlinear_arith)
        requires
            d == ad * bd,
            ad > 0,
            bd > 0,
    ;
    assert(n as real == ran * rbd + rbn * rad && d as real == rad * rbd) by (nonlinear_arith)
        requires
            n == an * bd + bn * ad,
            d == ad * bd,
            ran == an as real,
            rbn == bn as real,
            rad == ad as real,
            rbd == bd as real,
    ;
    let (rn, rd, z) = (n as real, d as real, x + y);
    assert(z * rd == rn) by (nonlinear_arith)
        requires
            z == x + y,
            rn == ran * rbd + rbn * rad,
            rd == rad * rbd,
            x * rad == ran,
            y * rbd == rbn,
    {
        assert(z * rd == (x * rad) * rbd + (y * rbd) * rad);
    }
}

/// A difference is the difference of the values, rounded.
pub proof fn lemma_difference_value(a: Binary64, b: Binary64)
    requires
        a is Finite,
        b is Finite,
        absolute(a.value() - b.value()) <= summit(),
    ensures
        a.difference(b) is Finite,
        a.difference(b).wf(),
        is_rounding(a.difference(b).value(), a.value() - b.value()),
{
    assert(b.negated().value() == -b.value());
    assert(a.value() + -b.value() == a.value() - b.value());
    lemma_sum_value(a, b.negated());
}

/// Integers are their own values.
pub proof fn lemma_integer_value(n: nat)
    requires
        n < LIMIT,
    ensures
        Binary64::of(n).is_magnitude(),
        Binary64::of(n).value() == n as real,
{
    accuracy::law_integers_are_exact(n);
    let r = Binary64::of(n);
    lemma_value(r);
    let (m, d) = (r.num(), r.den());
    let (x, rn, rm, rd) = (r.value(), n as real, m as real, d as real);
    assert(rm == rn * rd) by (nonlinear_arith)
        requires
            m == n * d,
            rm == m as real,
            rn == n as real,
            rd == d as real,
    ;
    assert(x == rn) by (nonlinear_arith)
        requires
            x * rd == rm,
            rm == rn * rd,
            rd > 0real,
    ;
}

/// Above `2^-11` the speck does not show.
pub proof fn lemma_rounding_is_near(x: real, y: real)
    requires
        is_rounding(x, y),
        2048real * y >= 1real,
    ensures
        near(x, y, 2real),
{
    reveal(near);
    reveal(is_rounding);
    let (s, l) = (speck(), limit());
    let d = absolute(x - y);
    assert(y * (l - 2real) <= x * l && x * l <= y * (l + 2real)) by (nonlinear_arith)
        requires
            d == x - y && x >= y || d == y - x && x < y,
            d * l <= y + s * l,
            s * l <= y,
            l >= 0real,
    ;
}

/// Errors add up.
pub proof fn lemma_near_chain(x: real, y: real, z: real, j: real, k: real)
    requires
        near(x, y, j),
        near(y, z, k),
        z >= 0real,
        0real <= j <= 32real,
        0real <= k <= 32real,
    ensures
        near(x, z, j + k + 1real),
{
    reveal(near);
    let l = limit();
    let m = j + k + 1real;
    assert(z * (l - m) <= x * l && x * l <= z * (l + m)) by (nonlinear_arith)
        requires
            l == 9007199254740992real,
            m == j + k + 1real,
            0real <= j <= 32real,
            0real <= k <= 32real,
            z >= 0real,
            y * (l - j) <= x * l,
            x * l <= y * (l + j),
            z * (l - k) <= y * l,
            y * l <= z * (l + k),
    {
        let jk = j * k;
        assert(0real <= jk <= 1024real);
        assert((y * l) * (l - j) <= (x * l) * l);
        assert((x * l) * l <= (y * l) * (l + j));
        assert((z * (l - k)) * (l - j) <= (y * l) * (l - j));
        assert((y * l) * (l + j) <= (z * (l + k)) * (l + j));
        assert((z * (l + k)) * (l + j) == z * (l * l + (j + k) * l + jk));
        assert((z * (l - k)) * (l - j) == z * (l * l - (j + k) * l + jk));
        assert(z * (l * l + (j + k) * l + jk) <= z * (l + m) * l);
        assert(z * (l - m) * l <= z * (l * l - (j + k) * l + jk));
    }
}

/// A common factor does not change how near two numbers are.
pub proof fn lemma_near_scaled(x: real, y: real, k: real, c: real)
    requires
        near(x, y, k),
        c >= 0real,
    ensures
        near(c * x, c * y, k),
{
    reveal(near);
    let l = limit();
    let (cx, cy) = (c * x, c * y);
    assert(cy * (l - k) <= cx * l && cx * l <= cy * (l + k)) by (nonlinear_arith)
        requires
            cx == c * x,
            cy == c * y,
            c >= 0real,
            y * (l - k) <= x * l,
            x * l <= y * (l + k),
    {
        assert(c * (y * (l - k)) <= c * (x * l));
        assert(c * (x * l) <= c * (y * (l + k)));
    }
}

/// Numbers that are near each other differ by less than a millionth.
pub proof fn lemma_near_bounds(x: real, y: real, k: real)
    requires
        near(x, y, k),
        y >= 0real,
        0real <= k <= 32real,
    ensures
        y * 999999real <= x * 1000000real,
        x * 1000000real <= y * 1000001real,
{
    reveal(near);
    let l = limit();
    assert(y * 999999real <= x * 1000000real && x * 1000000real <= y * 1000001real)
        by (nonlinear_arith)
        requires
            l == 9007199254740992real,
            y >= 0real,
            0real <= k <= 32real,
            y * (l - k) <= x * l,
            x * l <= y * (l + k),
    {
        assert(y * k <= y * 32real);
    }
}

/// Factors that are near others have products that are near each other.
pub proof fn lemma_near_product(x: real, p: real, j: real, y: real, q: real, k: real)
    requires
        near(x, p, j),
        near(y, q, k),
        p >= 0real,
        q >= 0real,
        0real <= j <= 32real,
        0real <= k <= 32real,
    ensures
        near(x * y, p * q, j + k + 1real),
{
    lemma_near_bounds(y, q, k);
    lemma_near_scaled(x, p, j, y);
    lemma_near_scaled(y, q, k, p);
    assert(y * x == x * y && y * p == p * y) by (nonlinear_arith);
    assert(p * q >= 0real) by (nonlinear_arith)
        requires
            p >= 0real,
            q >= 0real,
    ;
    lemma_near_chain(x * y, p * y, p * q, j, k);
}

/// Reciprocals of numbers that are near each other are near each other.
pub proof fn lemma_near_reciprocal(y: real, q: real, k: real)
    requires
        near(y, q, k),
        q > 0real,
        0real <= k <= 32real,
    ensures
        y > 0real,
        near(1real / y, 1real / q, k + 1real),
{
    reveal(near);
    let l = limit();
    assert(y > 0real) by (nonlinear_arith)
        requires
            l == 9007199254740992real,
            q * (l - k) <= y * l,
            q > 0real,
            k <= 32real,
    ;
    let (u, v, m) = (1real / y, 1real / q, k + 1real);
    assert(u * y == 1real && v * q == 1real && u > 0real && v > 0real) by (nonlinear_arith)
        requires
            u == 1real / y,
            v == 1real / q,
            y > 0real,
            q > 0real,
    ;
    let uv = u * v;
    assert(u * (l - k) <= v * l && v * l <= u * (l + k)) by (nonlinear_arith)
        requires
            u * y == 1real,
            v * q == 1real,
            u > 0real,
            v > 0real,
            uv == u * v,
            q * (l - k) <= y * l,
            y * l <= q * (l + k),
    {
        assert(uv > 0real);
        assert(uv * (q * (l - k)) <= uv * (y * l));
        assert(uv * (y * l) <= uv * (q * (l + k)));
        assert(uv * (q * (l - k)) == u * (l - k) * (v * q));
        assert(uv * (q * (l + k)) == u * (l + k) * (v * q));
        assert(uv * (y * l) == v * l * (u * y));
    }
    assert(v * (l - m) <= u * l && u * l <= v * (l + m)) by (nonlinear_arith)
        requires
            l == 9007199254740992real,
            m == k + 1real,
            0real <= k <= 32real,
            u > 0real,
            v > 0real,
            u * (l - k) <= v * l,
            v * l <= u * (l + k),
    ;
}

/// A small relative error of a ratio within the normal range.
pub proof fn lemma_rounded_near(num: nat, den: nat)
    requires
        den > 0,
        den <= num * 0x1_0000_0000_0000_0000_0000_0000_0000,
        num <= den * pow2(300),
    ensures
        Binary64::rounded(false, num, den).is_magnitude(),
        near(Binary64::rounded(false, num, den).value(), ratio(num, den), 1real),
{
    accuracy::lemma_wide_range(num, den);
    accuracy::law_relative_error(false, num, den);
    let r = Binary64::rounded(false, num, den);
    lemma_value(r);
    lemma_relative_near(r.num(), r.den(), num, den);
}

/// A quotient within the normal range is near the quotient of the values.
pub proof fn lemma_quotient_near(a: Binary64, b: Binary64)
    requires
        a is Finite,
        b is Finite,
        !a.sign(),
        !b.sign(),
        b.value() > 0real,
        a.value() / b.value() <= summit(),
        a.value() / b.value() * top() >= 1real,
    ensures
        a.quotient(b).is_magnitude(),
        near(a.quotient(b).value(), a.value() / b.value(), 1real),
{
    lemma_value(a);
    lemma_value(b);
    let (x, y, w) = (a.value(), b.value(), 1real / b.value());
    let (bn, bd) = (b.num() as real, b.den() as real);
    assert(w * bn == bd && x * w == x / y && bn > 0real) by (nonlinear_arith)
        requires
            y > 0real,
            bd > 0real,
            y * bd == bn,
            w == 1real / y,
    ;
    assert(!b.is_zero()) by {
        assert(0 * dyadic::up(b->exponent as int) == 0);
    }
    lemma_product_of_values(a.num(), a.den(), b.den(), b.num(), x, w);
    let (num, den, z) = (a.num() * b.den(), a.den() * b.num(), x * w);
    lemma_ratio(num, den);
    let (n, d, r) = (num as real, den as real, ratio(num, den));
    assert(z == r) by (nonlinear_arith)
        requires
            z * d == n,
            r * d == n,
            d > 0real,
    ;
    lemma_summit();
    let (t, s, dt) = (pow2(300), summit(), den * pow2(300));
    assert(n <= d * s && d <= n * 1267650600228229401496703205376real) by (nonlinear_arith)
        requires
            z * d == n,
            d > 0real,
            z <= s,
            z * 1267650600228229401496703205376real >= 1real,
    ;
    assert(dt as real == d * s) by (nonlinear_arith)
        requires
            dt == den * t,
            d == den as real,
            t as real == s,
    ;
    assert(den <= num * 0x1_0000_0000_0000_0000_0000_0000_0000) by (nonlinear_arith)
        requires
            n == num as real,
            d == den as real,
            d <= n * 1267650600228229401496703205376real,
    ;
    lemma_rounded_near(num, den);
}

/// The integer part of a value.
pub proof fn lemma_truncated_value(a: Binary64)
    requires
        a is Finite,
    ensures
        a.sign() ==> a.truncated() == 0,
        !a.sign() ==> a.truncated() as real <= a.value(),
        !a.sign() && a.truncated() < usize::MAX ==> a.value() < a.truncated() as real + 1real,
{
    lemma_value(a);
    if !a.sign() {
        let (n, d, x) = (a.num(), a.den(), a.value());
        let (q, r) = (n / d, n % d);
        vstd::arithmetic::div_mod::lemma_fundamental_div_mod(n as int, d as int);
        let p = d * q;
        let (rn, rd, rq, rr) = (n as real, d as real, q as real, r as real);
        assert(p as real == rd * rq) by (nonlinear_arith)
            requires
                p == d * q,
                rd == d as real,
                rq == q as real,
        ;
        assert(rn == rd * rq + rr);
        assert(rq <= x && x < rq + 1real) by (nonlinear_arith)
            requires
                x * rd == rn,
                rn == rd * rq + rr,
                0real <= rr < rd,
        ;
    }
}

/// `a * b` where one of them is no finite number: not a number where one is not, or where an
/// infinity meets 0; else the infinity of the product's sign.
pub proof fn law_product_of_infinities(a: Binary64, b: Binary64)
    requires
        !(a is Finite) || !(b is Finite),
    ensures
        ({
            let r = a.product(b);
            let lost = a is Nan || b is Nan || a.is_zero() || b.is_zero();
            &&& lost ==> r is Nan
            &&& !lost ==> r is Infinity && r.sign() == (a.sign() != b.sign())
        }),
{
}

/// `a / b` where one of them is no finite number, or `b` is 0.
pub proof fn law_quotient_of_infinities(a: Binary64, b: Binary64)
    requires
        !(a is Finite) || !(b is Finite) || b.is_zero(),
    ensures
        ({
            let r = a.quotient(b);
            let negative = a.sign() != b.sign();
            &&& a is Nan || b is Nan ==> r is Nan
            &&& a is Infinity && b is Infinity ==> r is Nan
            &&& a.is_zero() && b.is_zero() ==> r is Nan
            &&& a is Infinity && b is Finite ==> r is Infinity && r.sign() == negative
            &&& a is Finite && !a.is_zero() && b.is_zero() ==> r is Infinity && r.sign()
                == negative
            &&& a is Finite && b is Infinity ==> r.is_zero() && r.sign() == negative
        }),
{
}

/// `a + b` where one of them is no finite number.
pub proof fn law_sum_of_infinities(a: Binary64, b: Binary64)
    requires
        !(a is Finite) || !(b is Finite),
    ensures
        ({
            let r = a.sum(b);
            let opposed = a is Infinity && b is Infinity && a.sign() != b.sign();
            &&& a is Nan || b is Nan || opposed ==> r is Nan
            &&& a is Infinity && !(b is Nan) && !opposed ==> r == a
            &&& b is Infinity && !(a is Nan) && !opposed ==> r == b
        }),
{
}

/// An infinity is beyond every finite number, and what is not a number is not comparable.
pub proof fn law_order_of_infinities(a: Binary64, b: Binary64)
    ensures
        a is Nan || b is Nan ==> !a.less(b) && !a.at_most(b),
        a is Finite && b is Infinity ==> a.less(b) == !b.sign(),
        a is Infinity && b is Finite ==> a.less(b) == a.sign(),
        a is Infinity && b is Infinity ==> a.less(b) == (a.sign() && !b.sign()),
        !(a is Nan) && !(b is Nan) ==> a.at_most(b) == !b.less(a),
{
}

/// The lesser of two numbers is one of them, and not beyond the other.
pub proof fn law_lesser(a: Binary64, b: Binary64)
    ensures
        a is Nan ==> a.lesser(b) == b,
        b is Nan ==> a.lesser(b) == a,
        !(a is Nan) && !(b is Nan) ==> (a.lesser(b) == a || a.lesser(b) == b) && !a.less(
            a.lesser(b),
        ) && !b.less(a.lesser(b)),
{
    if a is Finite && b is Finite {
        lemma_less_value(a, b);
        lemma_less_value(b, a);
        lemma_less_value(a, a);
        lemma_less_value(b, b);
    }
}

/// The integer part of what is no finite number.
pub proof fn law_truncation_of_infinities(a: Binary64)
    requires
        !(a is Finite),
    ensures
        a is Nan || a.sign() ==> a.truncated() == 0,
        a is Infinity && !a.sign() ==> a.truncated() == usize::MAX,
{
}

} // verus!
