//! Cube roots by the Newton-Raphson method.

use vstd::prelude::*;
use vstd::arithmetic::power2::*;
use crate::binary64::{monotone, Binary64};

verus! {

/// One step of the method for `x^3 == a`: `(2 x + a / x^2) / 3`.
pub open spec fn newton_step(a: Binary64, x: Binary64) -> Binary64 {
    Binary64::of(2).product(x).sum(a.quotient(x.product(x))).quotient(Binary64::of(3))
}

/// The first iterate after `x` that is within `tolerance` of the one before it, or the last of
/// `n + 1`.
pub open spec fn newton(a: Binary64, x: Binary64, tolerance: Binary64, n: nat) -> Binary64
    decreases n,
{
    let next = newton_step(a, x);
    if n == 0 || magnitude(next.difference(x)).less(tolerance) {
        next
    } else {
        newton(a, next, tolerance, (n - 1) as nat)
    }
}

pub open spec fn magnitude(a: Binary64) -> Binary64 {
    if a.less(Binary64::zero(false)) {
        a.negated()
    } else {
        a
    }
}

/// How close two iterates have to be, and the iterate to start from: the cube root of seven
/// tenths of the largest number of `a`'s range.
pub open spec fn start(a: Binary64) -> (Binary64, Binary64) {
    if a.less(Binary64::of(1_000)) {
        (Binary64::of(1), Binary64::rounded(false, 8_879_040_017_426_005, 1_000_000_000_000_000))
    } else if a.less(Binary64::of(1_000_000)) {
        (Binary64::of(5), Binary64::rounded(false, 8_879_040_017_426_004, 100_000_000_000_000))
    } else if a.less(Binary64::of(1_000_000_000)) {
        (Binary64::of(50), Binary64::rounded(false, 8_879_040_017_426_004, 10_000_000_000_000))
    } else if a.less(Binary64::of(1_000_000_000_000)) {
        (Binary64::of(500), Binary64::rounded(false, 8_879_040_017_426_003, 1_000_000_000_000))
    } else if a.less(Binary64::of(1_000_000_000_000_000)) {
        (Binary64::of(5_000), Binary64::rounded(false, 8_879_040_017_426_001, 100_000_000_000))
    } else {
        (Binary64::of(50_000), Binary64::rounded(false, 8_879_040_017_426, 10_000_000))
    }
}

/// The cube root that the method finds in at most 21 steps; none of a number that is not
/// above 0.
pub open spec fn root(a: Binary64) -> Option<Binary64> {
    if a.at_most(Binary64::zero(false)) {
        None
    } else {
        let (tolerance, x) = start(a);
        Some(newton(a, x, tolerance, 20))
    }
}

/// The absolute value.
pub fn abs(a: Binary64) -> (r: Binary64)
    requires
        a.wf(),
    ensures
        r == magnitude(a),
        r.wf(),
{
    if a.lt(Binary64::zero(false)) {
        a.neg()
    } else {
        a
    }
}

/// The iterates to start from, in binary.
pub proof fn lemma_starting_points()
    ensures
        Binary64::rounded(false, 8_879_040_017_426_005, 1_000_000_000_000_000) == Binary64::positive(
            0x11_c211_887d_709f,
            -49 as i32,
        ),
        Binary64::rounded(false, 8_879_040_017_426_004, 100_000_000_000_000) == Binary64::positive(
            0x16_3295_ea9c_ccc6,
            -46 as i32,
        ),
        Binary64::rounded(false, 8_879_040_017_426_004, 10_000_000_000_000) == Binary64::positive(
            0x1b_bf3b_6543_fff7,
            -43 as i32,
        ),
        Binary64::rounded(false, 8_879_040_017_426_003, 1_000_000_000_000) == Binary64::positive(
            0x11_5785_1f4a_7ffa,
            -39 as i32,
        ),
        Binary64::rounded(false, 8_879_040_017_426_001, 100_000_000_000) == Binary64::positive(
            0x15_ad66_671d_1ff7,
            -36 as i32,
        ),
        Binary64::rounded(false, 8_879_040_017_426, 10_000_000) == Binary64::positive(
            0x1b_18c0_00e4_67f4,
            -33 as i32,
        ),
{
    lemma2_to64();
    lemma2_to64_rest();
    monotone::lemma_literal(8_879_040_017_426_005, 1_000_000_000_000_000, 0x11_c211_887d_709f, 49);
    monotone::lemma_literal(8_879_040_017_426_004, 100_000_000_000_000, 0x16_3295_ea9c_ccc6, 46);
    monotone::lemma_literal(8_879_040_017_426_004, 10_000_000_000_000, 0x1b_bf3b_6543_fff7, 43);
    monotone::lemma_literal(8_879_040_017_426_003, 1_000_000_000_000, 0x11_5785_1f4a_7ffa, 39);
    monotone::lemma_literal(8_879_040_017_426_001, 100_000_000_000, 0x15_ad66_671d_1ff7, 36);
    monotone::lemma_literal(8_879_040_017_426, 10_000_000, 0x1b_18c0_00e4_67f4, 33);
}

fn starting_point(a: Binary64) -> (r: (Binary64, Binary64))
    requires
        a.wf(),
    ensures
        r == start(a),
        r.0.wf(),
        r.1.wf(),
{
    proof {
        lemma_starting_points();
    }
    if a.lt(Binary64::from_u64(1_000)) {
        (Binary64::from_u64(1), Binary64::positive(0x11_c211_887d_709f, -49))
    } else if a.lt(Binary64::from_u64(1_000_000)) {
        (Binary64::from_u64(5), Binary64::positive(0x16_3295_ea9c_ccc6, -46))
    } else if a.lt(Binary64::from_u64(1_000_000_000)) {
        (Binary64::from_u64(50), Binary64::positive(0x1b_bf3b_6543_fff7, -43))
    } else if a.lt(Binary64::from_u64(1_000_000_000_000)) {
        (Binary64::from_u64(500), Binary64::positive(0x11_5785_1f4a_7ffa, -39))
    } else if a.lt(Binary64::from_u64(1_000_000_000_000_000)) {
        (Binary64::from_u64(5_000), Binary64::positive(0x15_ad66_671d_1ff7, -36))
    } else {
        (Binary64::from_u64(50_000), Binary64::positive(0x1b_18c0_00e4_67f4, -33))
    }
}

/// The cube root of `a`, less than twice the tolerance of its range off for a number below
/// `10^18`; `None` where `a` is 0 or less.
pub fn cube_root(a: Binary64) -> (r: Option<Binary64>)
    requires
        a.wf(),
    ensures
        r == root(a),
        r matches Some(x) ==> x.wf(),
{
    if a.le(Binary64::zero(false)) {
        return None;
    }
    let (tolerance, first) = starting_point(a);
    let two = Binary64::from_u64(2);
    let three = Binary64::from_u64(3);
    let mut x = first;
    let mut n: u32 = 20;
    loop
        invariant
            a.wf(),
            x.wf(),
            tolerance.wf(),
            two.wf(),
            three.wf(),
            two == Binary64::of(2),
            three == Binary64::of(3),
            n <= 20,
            root(a) == Some(newton(a, x, tolerance, n as nat)),
        decreases n,
    {
        let next = two.mul(x).add(a.div(x.mul(x))).div(three);
        if abs(next.sub(x)).lt(tolerance) {
            return Some(next);
        }
        if n == 0 {
            return Some(next);
        }
        x = next;
        n = n - 1;
    }
}

} // verus!
