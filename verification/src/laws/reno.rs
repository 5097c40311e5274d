//! Laws of the Reno controller.

use vstd::prelude::*;
use vstd::arithmetic::div_mod::*;
use vstd::arithmetic::power2::*;
use crate::reno::Reno;

verus! {

/// Something that a Reno controller is told, other than a new minimal window.
pub enum Signal {
    Ack { len: usize },
    DupAck,
    Timeout,
    RemoteWindow { size: usize },
}

impl Reno {
    pub open spec fn after(self, signal: Signal) -> Reno {
        match signal {
            Signal::Ack { len } => self.acked(len),
            Signal::DupAck => self.dup_acked(),
            Signal::Timeout => self.timed_out(),
            Signal::RemoteWindow { size } => self.with_remote_window(size),
        }
    }

    pub open spec fn after_all(self, history: Seq<Signal>) -> Reno
        decreases history.len(),
    {
        if history.len() == 0 {
            self
        } else {
            self.after_all(history.drop_last()).after(history.last())
        }
    }

    /// The window is at least the minimal one, and at most what the receiver has announced, or
    /// the minimal one where that is more.
    pub open spec fn in_bounds(self) -> bool {
        &&& self.min_cwnd <= self.cwnd
        &&& self.cwnd <= self.rwnd || self.cwnd <= self.min_cwnd
    }

    pub open spec fn after_timeouts(self, n: nat) -> Reno
        decreases n,
    {
        if n == 0 {
            self
        } else {
            self.after_timeouts((n - 1) as nat).timed_out()
        }
    }
}

/// Whatever a controller is told, a window within its bounds stays within them, and the minimal
/// window is what it was.
pub proof fn law_window_stays_in_bounds(r: Reno, history: Seq<Signal>)
    requires
        r.in_bounds(),
    ensures
        r.after_all(history).in_bounds(),
        r.after_all(history).min_cwnd == r.min_cwnd,
        r.after_all(history).rwnd >= r.rwnd,
    decreases history.len(),
{
    if history.len() > 0 {
        law_window_stays_in_bounds(r, history.drop_last());
    }
}

/// An acknowledgement brings any window into its bounds, whatever the minimal window was before.
pub proof fn law_ack_brings_window_into_bounds(r: Reno, len: usize)
    ensures
        r.acked(len).in_bounds(),
{
}

/// A minimal window that is no larger than the window leaves a window that the receiver has room
/// for in its bounds.
pub proof fn law_mss_within_window(r: Reno, mss: usize)
    requires
        mss <= r.cwnd <= r.rwnd,
    ensures
        r.with_mss(mss).in_bounds(),
{
}

/// An acknowledgement never shrinks a window that is in bounds. In slow start the window grows
/// by at most the acknowledged bytes, afterwards by at most one minimal window; and by exactly
/// that where the receiver leaves room.
pub proof fn law_ack_grows_window(r: Reno, len: usize)
    requires
        r.in_bounds(),
    ensures
        ({
            let by = if r.cwnd < r.ssthresh {
                len
            } else {
                r.min_cwnd
            };
            let grown = r.acked(len).cwnd;
            &&& r.cwnd <= grown <= r.cwnd + by
            &&& r.cwnd + by <= r.rwnd ==> grown == r.cwnd + by
        }),
{
}

/// After a duplicate acknowledgement a window in bounds is no longer in slow start: the next
/// acknowledgement adds one minimal window.
pub proof fn law_dup_ack_ends_slow_start(r: Reno, len: usize)
    requires
        r.in_bounds(),
    ensures
        r.dup_acked().ssthresh <= r.dup_acked().cwnd,
        r.dup_acked().acked(len).cwnd == crate::window::within(
            (r.cwnd + r.min_cwnd) as nat,
            r.rwnd,
            r.min_cwnd,
        ),
{
}

/// Each timeout halves the window until the minimal window is reached, and none goes below it.
pub proof fn law_timeouts_halve_down_to_minimum(r: Reno, n: nat)
    requires
        n > 0,
    ensures
        ({
            let part = r.cwnd as nat / pow2(n);
            let least = r.min_cwnd as nat;
            r.after_timeouts(n) == Reno {
                cwnd: if part < least {
                    r.min_cwnd
                } else {
                    part as usize
                },
                ..r
            }
        }),
    decreases n,
{
    lemma2_to64();
    let cwnd = r.cwnd as nat;
    if n == 1 {
        assert(r.after_timeouts(0) == r);
        assert(r.after_timeouts(1) == r.after_timeouts(0).timed_out());
    } else {
        let m = (n - 1) as nat;
        law_timeouts_halve_down_to_minimum(r, m);
        lemma_pow2_unfold(n);
        lemma_pow2_pos(m);
        lemma_div_denominator(cwnd as int, pow2(m) as int, 2);
        assert(pow2(m) * 2 == pow2(n));
        assert(cwnd / pow2(n) == (cwnd / pow2(m)) / 2);
        let part = cwnd / pow2(m);
        if part < r.min_cwnd {
            assert(r.min_cwnd / 2 <= r.min_cwnd);
        }
        lemma_div_nonincreasing(cwnd as int, pow2(m) as int);
    }
}

/// The largest announced window counts, in whatever order the announcements come.
pub proof fn law_largest_remote_window_counts(r: Reno, a: usize, b: usize)
    ensures
        r.with_remote_window(a).with_remote_window(b) == r.with_remote_window(
            b,
        ).with_remote_window(a),
        r.with_remote_window(a).with_remote_window(b).rwnd >= a,
        r.with_remote_window(a).with_remote_window(b).rwnd >= b,
        r.with_remote_window(a).with_remote_window(b).rwnd >= r.rwnd,
{
}

/// What an acknowledgement does, in full. Below the threshold the window gains the acknowledged
/// bytes and the threshold stands; from the threshold on the window gains one minimal window and
/// the threshold becomes the window before. The sum is cut off at the receiver's window, and
/// raised to the minimal one.
pub proof fn law_ack(r: Reno, len: usize)
    ensures
        ({
            let d = r.acked(len);
            let sum: int = if r.cwnd < r.ssthresh {
                r.cwnd + len
            } else {
                r.cwnd + r.min_cwnd
            };
            &&& d.min_cwnd == r.min_cwnd
            &&& d.rwnd == r.rwnd
            &&& r.cwnd < r.ssthresh ==> d.ssthresh == r.ssthresh
            &&& r.cwnd >= r.ssthresh ==> d.ssthresh == r.cwnd
            &&& r.min_cwnd <= sum <= r.rwnd ==> d.cwnd == sum
            &&& sum > r.rwnd >= r.min_cwnd ==> d.cwnd == r.rwnd
            &&& sum < r.min_cwnd || r.rwnd < r.min_cwnd ==> d.cwnd == r.min_cwnd
        }),
{
}

/// After a duplicate acknowledgement the threshold is half the window, rounded down, or the
/// minimal window where that is more. Nothing else changes.
pub proof fn law_dup_ack_halves_threshold(r: Reno)
    ensures
        ({
            let d = r.dup_acked();
            &&& d.cwnd == r.cwnd
            &&& d.min_cwnd == r.min_cwnd
            &&& d.rwnd == r.rwnd
            &&& d.ssthresh >= r.min_cwnd
            &&& r.cwnd >= 2 * r.min_cwnd ==> 2 * d.ssthresh <= r.cwnd < 2 * d.ssthresh + 2
            &&& r.cwnd < 2 * r.min_cwnd ==> d.ssthresh == r.min_cwnd
        }),
{
}

/// After a timeout the window is half of what it was, rounded down, or the minimal one where that
/// is more. Nothing else changes.
pub proof fn law_timeout_halves_window(r: Reno)
    ensures
        ({
            let d = r.timed_out();
            &&& d.ssthresh == r.ssthresh
            &&& d.min_cwnd == r.min_cwnd
            &&& d.rwnd == r.rwnd
            &&& d.cwnd >= r.min_cwnd
            &&& r.cwnd >= 2 * r.min_cwnd ==> 2 * d.cwnd <= r.cwnd < 2 * d.cwnd + 2
            &&& r.cwnd < 2 * r.min_cwnd ==> d.cwnd == r.min_cwnd
        }),
{
}

/// A new minimal window replaces the old one, and an announced window replaces a smaller one.
/// Nothing else changes.
pub proof fn law_settings(r: Reno, size: usize)
    ensures
        ({
            let (d, e) = (r.with_mss(size), r.with_remote_window(size));
            &&& d.min_cwnd == size
            &&& d.cwnd == r.cwnd && d.ssthresh == r.ssthresh && d.rwnd == r.rwnd
            &&& size > r.rwnd ==> e.rwnd == size
            &&& size <= r.rwnd ==> e.rwnd == r.rwnd
            &&& e.cwnd == r.cwnd && e.ssthresh == r.ssthresh && e.min_cwnd == r.min_cwnd
        }),
{
}

impl Reno {
    /// The state after acknowledgements of these lengths.
    pub open spec fn after_acks(self, lens: Seq<usize>) -> Reno
        decreases lens.len(),
    {
        if lens.len() == 0 {
            self
        } else {
            self.after_acks(lens.drop_last()).acked(lens.last())
        }
    }
}

/// Acknowledgements alone never lead back to slow start: each of them adds one minimal window,
/// whatever it acknowledges, up to the receiver's window.
pub proof fn law_avoidance_lasts(r: Reno, lens: Seq<usize>)
    requires
        r.ssthresh <= r.cwnd,
        r.min_cwnd <= r.cwnd <= r.rwnd,
    ensures
        ({
            let d = r.after_acks(lens);
            let sum = r.cwnd + lens.len() * r.min_cwnd;
            &&& d.ssthresh <= d.cwnd
            &&& d.min_cwnd == r.min_cwnd
            &&& d.rwnd == r.rwnd
            &&& sum <= r.rwnd ==> d.cwnd == sum
            &&& sum > r.rwnd ==> d.cwnd == r.rwnd
        }),
    decreases lens.len(),
{
    let m = r.min_cwnd as int;
    let n = lens.len() as int;
    if n > 0 {
        law_avoidance_lasts(r, lens.drop_last());
        law_ack(r.after_acks(lens.drop_last()), lens.last());
        assert(n * m == (n - 1) * m + m) by (nonlinear_arith);
    } else {
        assert(n * m == 0) by (nonlinear_arith)
            requires
                n == 0,
        ;
    }
}

/// In slow start acknowledgements add up: two of them do what one of both lengths does, as long
/// as the first does not end slow start.
pub proof fn law_slow_start_adds_up(r: Reno, a: usize, b: usize)
    requires
        r.min_cwnd <= r.cwnd,
        r.cwnd + a < r.ssthresh,
        r.cwnd + a <= r.rwnd,
        a + b <= usize::MAX,
    ensures
        r.acked(a).acked(b) == r.acked((a + b) as usize),
{
}

/// A new controller is in slow start at two segments of 1024 bytes, with room for 64 of them; and
/// the window that a controller answers is its congestion window.
pub proof fn law_new_controller(r: Reno)
    ensures
        ({
            let n = Reno::new();
            &&& n.cwnd == 2 * 1024 && n.min_cwnd == 2 * 1024
            &&& n.rwnd == 64 * 1024
            &&& n.ssthresh == usize::MAX
        }),
        r.window() == r.cwnd,
{
}

} // verus!
