//! The bounds of a congestion window.

use vstd::prelude::*;

verus! {

/// `size` held under the receiver's window `rwnd`, and then, above all, at least `min_cwnd`.
pub open spec fn within(size: nat, rwnd: usize, min_cwnd: usize) -> usize {
    let capped = if size < rwnd {
        size as usize
    } else {
        rwnd
    };
    if capped < min_cwnd {
        min_cwnd
    } else {
        capped
    }
}

pub open spec fn larger(a: usize, b: usize) -> usize {
    if a < b {
        b
    } else {
        a
    }
}

pub open spec fn smaller(a: usize, b: usize) -> usize {
    if a < b {
        a
    } else {
        b
    }
}

pub(crate) fn max(a: usize, b: usize) -> (r: usize)
    ensures
        r == larger(a, b),
{
    if a < b {
        b
    } else {
        a
    }
}

pub(crate) fn min(a: usize, b: usize) -> (r: usize)
    ensures
        r == smaller(a, b),
{
    if a < b {
        a
    } else {
        b
    }
}

/// The window `cwnd` grown by `by` bytes, within its bounds.
pub(crate) fn grow(cwnd: usize, by: usize, rwnd: usize, min_cwnd: usize) -> (r: usize)
    ensures
        r == within((cwnd + by) as nat, rwnd, min_cwnd),
{
    max(min(cwnd.saturating_add(by), rwnd), min_cwnd)
}

} // verus!
