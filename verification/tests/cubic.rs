use congestion::{Binary64, Cubic, Instant, RttEstimator};

#[test]
fn test_cubic() {
    let remote_window = 64 * 1024 * 1024;
    let now = Instant::from_millis(0);

    for i in 0..10 {
        for j in 0..9 {
            let mut cubic = Cubic::new();
            // Set remote window.
            cubic.set_remote_window(remote_window);

            cubic.set_mss(1480);

            if i & 1 == 0 {
                cubic.on_rto(now, cubic.window());
            } else {
                cubic.on_dup_ack(now, 1480, cubic.window());
            }

            cubic.pre_transmit(now);

            let mut n = i;
            for _ in 0..j {
                n *= i;
            }

            let elapsed = Instant::from_millis(n);
            cubic.pre_transmit(elapsed);

            let cwnd = cubic.window();
            println!("Cubic: elapsed = {:?}, cwnd = {}", elapsed, cwnd);

            assert!(cwnd >= cubic.min_cwnd);
            assert!(cubic.window() <= remote_window);
        }
    }
}

#[test]
fn cubic_time_inversion() {
    let mut cubic = Cubic::new();

    let t1 = Instant::from_micros(0);
    let t2 = Instant::from_micros(i64::MAX);

    cubic.on_rto(t2, cubic.window());
    cubic.pre_transmit(t1);

    let cwnd = cubic.window();
    println!("Cubic:time_inversion: cwnd: {}, cubic: {cubic:?}", cwnd);

    assert!(cwnd >= cubic.min_cwnd);
    assert!(cwnd <= cubic.rwnd);
}

#[test]
fn cubic_long_elapsed_time() {
    let mut cubic = Cubic::new();

    let t1 = Instant::from_millis(0);
    let t2 = Instant::from_micros(i64::MAX);

    cubic.on_rto(t1, cubic.window());
    cubic.pre_transmit(t2);

    let cwnd = cubic.window();
    println!("Cubic:long_elapsed_time: cwnd: {}", cwnd);

    assert!(cwnd >= cubic.min_cwnd);
    assert!(cwnd <= cubic.rwnd);
}

#[test]
fn cubic_last_update() {
    let mut cubic = Cubic::new();

    let t1 = Instant::from_millis(0);
    let t2 = Instant::from_millis(100);
    let t3 = Instant::from_millis(199);
    let t4 = Instant::from_millis(20000);

    cubic.on_rto(t1, cubic.window());

    cubic.pre_transmit(t2);
    let cwnd2 = cubic.window();

    cubic.pre_transmit(t3);
    let cwnd3 = cubic.window();

    cubic.pre_transmit(t4);
    let cwnd4 = cubic.window();

    println!(
        "Cubic:last_update: cwnd2: {}, cwnd3: {}, cwnd4: {}",
        cwnd2, cwnd3, cwnd4
    );

    assert_eq!(cwnd2, cwnd3);
    assert_ne!(cwnd2, cwnd4);
}

#[test]
fn cubic_slow_start() {
    let mut cubic = Cubic::new();

    let t1 = Instant::from_micros(0);

    let cwnd = cubic.window();
    let ack_len = 1024;

    cubic.on_ack(t1, ack_len, cubic.window(), &RttEstimator::default());

    assert!(cubic.window() > cwnd);

    for i in 1..1000 {
        let t2 = Instant::from_micros(i);
        cubic.on_ack(t2, ack_len * 100, cubic.window(), &RttEstimator::default());
        assert!(cubic.window() <= cubic.rwnd);
    }

    let t3 = Instant::from_micros(2000);

    let cwnd = cubic.window();
    cubic.on_rto(t3, cubic.window());
    assert_eq!(cwnd >> 1, cubic.ssthresh);
}

#[test]
fn cubic_pre_transmit() {
    let mut cubic = Cubic::new();
    cubic.pre_transmit(Instant::from_micros(2000));
}

fn of_float(x: f64) -> Binary64 {
    let bits = x.to_bits();
    let negative = bits >> 63 == 1;
    let field = ((bits >> 52) & 0x7ff) as i32;
    let fraction = bits & ((1 << 52) - 1);
    if field == 0x7ff {
        if fraction != 0 {
            Binary64::Nan
        } else {
            Binary64::Infinity { negative }
        }
    } else if field == 0 {
        Binary64::Finite { negative, significand: fraction, exponent: -1074 }
    } else {
        Binary64::Finite { negative, significand: fraction | (1 << 52), exponent: field - 1075 }
    }
}

fn float_fields(x: Binary64) -> (u8, bool, u64, i32) {
    match x {
        Binary64::Nan => (0, false, 0, 0),
        Binary64::Infinity { negative } => (1, negative, 0, 0),
        Binary64::Finite { negative, significand, exponent } => {
            (2, negative, significand, exponent)
        }
    }
}

fn float_cube_root(a: f64) -> Option<f64> {
    if a <= 0.0 {
        return None;
    }
    let (tolerance, init) = if a < 1.0e3 {
        (1.0, 8.879040017426005)
    } else if a < 1.0e6 {
        (5.0, 88.79040017426004)
    } else if a < 1.0e9 {
        (50.0, 887.9040017426004)
    } else if a < 1.0e12 {
        (500.0, 8879.040017426003)
    } else if a < 1.0e15 {
        (5000.0, 88790.40017426001)
    } else {
        (50000.0, 887904.0017426)
    };
    let mut x: f64 = init;
    for _ in 0..21 {
        let previous = x;
        x = (2.0 * x + a / (x * x)) / 3.0;
        if (x - previous).abs() < tolerance {
            break;
        }
    }
    Some(x)
}

const BETA: f64 = 0.7;
const ALPHA: f64 = 3.0 * (1.0 - BETA) / (1.0 + BETA);

/// The controller's formulas in machine floats.
struct Floats {
    w_max: usize,
    cwnd: usize,
    min_cwnd: usize,
    ssthresh: usize,
    rwnd: usize,
    k: f64,
    w_est: f64,
    cwnd_prior: usize,
    start: Option<i64>,
    recovering: bool,
    idle: Option<i64>,
    timed_out_at: Option<i64>,
}

impl Floats {
    fn new() -> Floats {
        let mut f = Floats {
            w_max: 2048,
            cwnd: 2048,
            min_cwnd: 2048,
            ssthresh: usize::MAX,
            rwnd: 65536,
            k: 0.0,
            w_est: 2048.0,
            cwnd_prior: 2048,
            start: None,
            recovering: false,
            idle: None,
            timed_out_at: None,
        };
        f.offset();
        f
    }

    fn offset(&mut self) {
        let cubed = self.w_max as f64 * (1.0 - BETA) / (0.4 * self.min_cwnd as f64);
        self.k = float_cube_root(cubed).unwrap_or(0.0);
    }

    fn curve(&self, seconds: f64) -> f64 {
        0.4 * self.min_cwnd as f64 * (seconds - self.k).powi(3) + self.w_max as f64
    }

    fn prepare(&mut self, now: i64) {
        if let Some(at) = self.timed_out_at {
            if now >= at {
                let curve = self.curve((now - at) as f64 / 1_000_000.0) as usize;
                let size = self.cwnd.max(curve.min(self.ssthresh));
                self.cwnd = size.min(self.rwnd).max(self.min_cwnd);
            }
        }
    }

    fn transmit(&mut self, now: i64) {
        if let (Some(idle), Some(start)) = (self.idle, self.start) {
            if now >= idle {
                self.start = Some(start + (now - idle));
            }
        }
        self.idle = None;
    }

    fn ack(&mut self, now: i64, len: usize, in_flight: usize, srtt: u32) {
        let segment = len.min(self.min_cwnd);
        self.transmit(now);
        if in_flight == 0 {
            self.idle = Some(now);
        }
        self.timed_out_at = None;
        if self.recovering {
            self.recovering = false;
            self.cwnd = self.ssthresh;
            self.w_est = self.cwnd as f64;
        } else if self.cwnd < self.ssthresh {
            self.cwnd = self.cwnd.saturating_add(segment).min(self.rwnd).max(self.min_cwnd);
        } else {
            if self.start.is_none() {
                self.w_max = self.cwnd;
                self.k = 0.0;
                self.w_est = self.cwnd as f64;
                self.start = Some(now);
            }
            let t = now - self.start.unwrap();
            if t < 0 {
                return;
            }
            let w_cubic = self.curve(t as f64 / 1_000_000.0);
            let alpha = if self.w_est >= self.cwnd_prior as f64 { 1.0 } else { ALPHA };
            self.w_est += alpha * self.min_cwnd as f64 * segment as f64 / self.cwnd as f64;
            if w_cubic < self.w_est {
                self.cwnd = (self.w_est as usize).min(self.rwnd).max(self.min_cwnd);
                return;
            }
            let ahead = (t as f64 + (srtt as u64 * 1000).max(1000) as f64) / 1_000_000.0;
            let target = self.curve(ahead).min(1.5 * self.cwnd as f64) as usize;
            let increment = target.saturating_sub(self.cwnd) * segment / self.cwnd;
            self.cwnd = (self.cwnd + increment).min(self.rwnd).max(self.min_cwnd);
        }
    }

    fn dup_ack(&mut self, len: usize) {
        if self.recovering {
            self.cwnd = self.cwnd.saturating_add(len).min(self.rwnd).max(self.min_cwnd);
        }
    }

    fn loss(&mut self, now: i64, in_flight: usize) {
        self.idle = None;
        if !self.recovering {
            self.cwnd_prior = self.cwnd;
            self.w_max = if self.cwnd < self.w_max {
                (self.cwnd as f64 * (1.0 + BETA) / 2.0) as usize
            } else {
                self.cwnd
            };
            self.ssthresh = ((in_flight as f64 * BETA) as usize).max(2 * self.min_cwnd);
            self.cwnd = self.ssthresh.min(self.rwnd).saturating_add(3 * self.min_cwnd);
            self.start = Some(now);
            self.recovering = true;
            self.timed_out_at = None;
            self.offset();
        }
    }

    fn timeout(&mut self, now: i64, in_flight: usize) {
        self.ssthresh = (in_flight / 2).max(2 * self.min_cwnd);
        self.cwnd = self.min_cwnd;
        self.cwnd_prior = in_flight;
        self.start = None;
        self.recovering = false;
        self.idle = None;
        self.timed_out_at = Some(now);
    }

    fn agrees(&self, c: &Cubic) -> bool {
        let sizes = (self.w_max, self.cwnd, self.min_cwnd, self.ssthresh, self.rwnd)
            == (c.w_max, c.cwnd, c.min_cwnd, c.ssthresh, c.rwnd);
        let floats = float_fields(of_float(self.k)) == float_fields(c.k)
            && float_fields(of_float(self.w_est)) == float_fields(c.w_est);
        sizes
            && floats
            && self.cwnd_prior == c.cwnd_prior
            && self.recovering == c.in_fast_recovery
            && self.start == c.recovery_start.map(|t| t.total_micros())
            && self.idle == c.idle_start.map(|t| t.total_micros())
            && self.timed_out_at == c.timed_out_at.map(|t| t.total_micros())
    }
}

fn next(state: &mut u64) -> u64 {
    let mut x = *state;
    x ^= x << 13;
    x ^= x >> 7;
    x ^= x << 17;
    *state = x;
    x
}

#[test]
fn random_histories_agree_with_machine_floats() {
    let mut state = 0xfeed_beef_cafe_0001;
    for round in 0..60 {
        let mut cubic = Cubic::new();
        let mut floats = Floats::new();
        assert!(floats.agrees(&cubic));
        let mut now: i64 = 0;
        let pace = 1 + next(&mut state) % 500_000;
        for _ in 0..400 {
            now += (next(&mut state) % pace) as i64;
            let at = Instant::from_micros(now);
            let flight = (next(&mut state) % (2 * cubic.window() as u64 + 1)) as usize;
            let len = (next(&mut state) % 3000) as usize;
            let srtt = (next(&mut state) % 200) as u32;
            match next(&mut state) % 100 {
                0..=1 => {
                    cubic.on_loss(at, flight);
                    floats.loss(now, flight);
                }
                2 => {
                    cubic.on_rto(at, flight);
                    floats.timeout(now, flight);
                }
                3..=9 => {
                    cubic.on_dup_ack(at, len, flight);
                    floats.dup_ack(len);
                }
                10..=19 => {
                    cubic.post_transmit(at, len);
                    floats.transmit(now);
                }
                20 => {
                    let size = (next(&mut state) % 10_000_000) as usize;
                    cubic.set_remote_window(size);
                    floats.rwnd = floats.rwnd.max(size);
                }
                22..=27 => {
                    cubic.pre_transmit(at);
                    floats.prepare(now);
                }
                21 => {
                    let mss = 1 + (next(&mut state) % 9000) as usize;
                    cubic.set_mss(mss);
                    floats.min_cwnd = mss;
                    floats.offset();
                }
                _ => {
                    let left = if next(&mut state) % 8 == 0 { 0 } else { flight };
                    cubic.on_ack(at, len, left, &RttEstimator::new(srtt));
                    floats.ack(now, len, left, srtt);
                }
            }
            assert!(floats.agrees(&cubic), "round {}: {:?}", round, cubic);
        }
    }
}

/// A controller in congestion avoidance with a window of `cwnd` bytes.
fn avoiding(cwnd: usize) -> Cubic {
    let mut cubic = Cubic::new();
    cubic.set_remote_window(10_000_000);
    cubic.cwnd = cwnd;
    cubic.ssthresh = cwnd;
    cubic
}

#[test]
fn a_new_cubic_controller() {
    let c = Cubic::new();
    assert_eq!((c.w_max, c.cwnd, c.min_cwnd), (2048, 2048, 2048));
    assert_eq!((c.ssthresh, c.rwnd, c.cwnd_prior), (usize::MAX, 65536, 2048));
    assert!(c.recovery_start.is_none() && c.idle_start.is_none() && !c.in_fast_recovery);
    assert_eq!(float_fields(c.w_est), float_fields(of_float(2048.0)));
    let k = float_cube_root(2048.0 * (1.0 - 0.7) / (0.4 * 2048.0)).unwrap();
    assert_eq!(float_fields(c.k), float_fields(of_float(k)));
}

#[test]
fn the_window_follows_the_elapsed_time() {
    let rtt = RttEstimator::default();
    let mut cubic = avoiding(20480);

    cubic.on_ack(Instant::from_millis(100), 1, 1, &rtt);
    let cwnd2 = cubic.window();
    cubic.on_ack(Instant::from_millis(199), 1, 1, &rtt);
    let cwnd3 = cubic.window();
    cubic.on_ack(Instant::from_millis(20000), 1480, 1, &rtt);
    let cwnd4 = cubic.window();

    assert_eq!(cwnd2, cwnd3);
    assert_ne!(cwnd2, cwnd4);
    // The target is 1.5 windows: the growth is half of the segment.
    assert_eq!(cwnd4, 20480 + 740);
}

#[test]
fn preparing_a_segment_after_a_timeout_follows_the_curve() {
    let mut cubic = avoiding(20000);
    cubic.w_max = 20000;
    cubic.recompute_k();
    cubic.on_rto(Instant::from_millis(1000), 100_000);
    assert_eq!((cubic.window(), cubic.ssthresh), (2048, 50000));
    let mut floats = Floats::new();
    floats.w_max = 20000;
    floats.offset();
    // The curve at its beginning, behind a time, and past the plateau.
    cubic.pre_transmit(Instant::from_millis(1000));
    let begun = floats.curve(0.0) as usize;
    assert_eq!(cubic.window(), begun.max(2048));
    cubic.pre_transmit(Instant::from_millis(0));
    assert_eq!(cubic.window(), begun.max(2048));
    for _ in 0..3 {
        cubic.pre_transmit(Instant::from_millis(4000));
        assert_eq!(cubic.window(), floats.curve(3.0) as usize);
    }
    assert!(20000 < cubic.window() && cubic.window() < 50000);
    // Slow start reaches no further than the threshold.
    cubic.pre_transmit(Instant::from_millis(1_000_000));
    assert_eq!(cubic.window(), 50000);
    assert_eq!((cubic.w_max, cubic.ssthresh), (20000, 50000));
    assert!(cubic.recovery_start.is_none());
}

#[test]
fn preparing_a_segment_leaves_a_running_curve_alone() {
    let rtt = RttEstimator::default();
    let mut cubic = Cubic::new();
    cubic.on_loss(Instant::from_millis(0), 2048);
    cubic.pre_transmit(Instant::from_millis(10000));
    assert_eq!(cubic.window(), 4096 + 3 * 2048);
    cubic.on_ack(Instant::from_millis(0), 1024, 1, &rtt);
    assert_eq!(cubic.window(), 4096);
    cubic.pre_transmit(Instant::from_millis(19900));
    assert_eq!(cubic.window(), 4096);
}

#[test]
fn preparing_a_segment_leaves_a_new_controller_alone() {
    let mut cubic = Cubic::new();
    cubic.pre_transmit(Instant::from_millis(0));
    cubic.pre_transmit(Instant::from_millis(20000));
    assert_eq!(cubic.window(), 2048);
}

#[test]
fn an_acknowledgement_after_a_timeout_takes_over() {
    let rtt = RttEstimator::default();
    let mut cubic = avoiding(20000);
    cubic.on_rto(Instant::from_millis(0), 12000);
    cubic.pre_transmit(Instant::from_millis(100));
    assert_eq!(cubic.timed_out_at.unwrap().total_micros(), 0);
    assert_eq!(cubic.window(), 2048);
    cubic.on_ack(Instant::from_millis(300), 2048, 1, &rtt);
    assert!(cubic.timed_out_at.is_none());
    cubic.pre_transmit(Instant::from_millis(20000));
    assert_eq!(cubic.window(), 4096);
    cubic.on_ack(Instant::from_millis(301), 2048, 1, &rtt);
    assert_eq!((cubic.window(), cubic.ssthresh), (6144, 6000));
    // The curve begins with the acknowledgement in congestion avoidance.
    cubic.on_ack(Instant::from_millis(302), 2048, 1, &rtt);
    assert_eq!(cubic.w_max, 6144);
    assert_eq!(float_fields(cubic.k), float_fields(of_float(0.0)));
    assert_eq!(cubic.recovery_start.unwrap().total_micros(), 302_000);
}

#[test]
fn a_loss_after_a_timeout_takes_over() {
    let mut cubic = avoiding(20000);
    cubic.on_rto(Instant::from_millis(0), 12000);
    cubic.on_loss(Instant::from_millis(10), 12000);
    assert!(cubic.timed_out_at.is_none());
    let cwnd = cubic.window();
    cubic.pre_transmit(Instant::from_millis(20000));
    assert_eq!(cubic.window(), cwnd);
}

#[test]
fn the_window_waits_for_the_offset() {
    let mut cubic = Cubic::new();
    cubic.on_rto(Instant::from_millis(0), 100_000);
    cubic.pre_transmit(Instant::from_millis(900));
    assert_eq!(cubic.window(), 2048);
    cubic.pre_transmit(Instant::from_millis(5000));
    assert!(cubic.window() > 2048);
}

#[test]
fn any_two_times_can_be_compared_when_preparing() {
    let mut cubic = Cubic::new();
    cubic.on_rto(Instant::from_micros(i64::MIN), 100_000);
    cubic.pre_transmit(Instant::from_micros(i64::MAX));
    assert_eq!(cubic.window(), 50000);
    let mut cubic = Cubic::new();
    cubic.on_rto(Instant::from_micros(i64::MAX), 100_000);
    cubic.pre_transmit(Instant::from_micros(i64::MIN));
    assert_eq!(cubic.window(), 2048);
}

#[test]
fn a_plateau_of_nothing_has_no_offset() {
    let mut cubic = Cubic::new();
    cubic.w_max = 0;
    cubic.recompute_k();
    assert_eq!(float_fields(cubic.k), float_fields(of_float(0.0)));
    cubic.w_max = 1;
    cubic.recompute_k();
    assert!(float_fields(cubic.k) != float_fields(of_float(0.0)));
}

#[test]
fn slow_start_adds_at_most_one_minimal_window() {
    let now = Instant::from_micros(0);
    let rtt = RttEstimator::default();
    let mut cubic = Cubic::new();
    cubic.on_ack(now, 100, 1, &rtt);
    assert_eq!(cubic.window(), 2148);
    cubic.on_ack(now, 100_000, 1, &rtt);
    assert_eq!(cubic.window(), 4196);
    cubic.cwnd = 65000;
    cubic.on_ack(now, 100_000, 1, &rtt);
    assert_eq!(cubic.window(), 65536);
}

#[test]
fn a_loss_cuts_the_window_once() {
    let now = Instant::from_micros(1_000_000);
    let mut cubic = avoiding(20000);
    cubic.on_loss(now, 20000);
    assert_eq!(cubic.ssthresh, 14000);
    assert_eq!(cubic.window(), 14000 + 3 * 2048);
    assert_eq!((cubic.w_max, cubic.cwnd_prior), (20000, 20000));
    assert_eq!(cubic.recovery_start.unwrap().total_micros(), 1_000_000);
    assert!(cubic.in_fast_recovery);

    cubic.on_loss(Instant::from_micros(2_000_000), 50000);
    assert_eq!(cubic.ssthresh, 14000);
    assert_eq!(cubic.recovery_start.unwrap().total_micros(), 1_000_000);

    cubic.on_dup_ack(now, 1000, 0);
    assert_eq!(cubic.window(), 21144);
    cubic.on_ack(now, 1480, 10, &RttEstimator::default());
    assert_eq!(cubic.window(), 14000);
    assert!(!cubic.in_fast_recovery);
    assert_eq!(float_fields(cubic.w_est), float_fields(of_float(14000.0)));

    cubic.on_dup_ack(now, 1000, 0);
    assert_eq!(cubic.window(), 14000);
}

#[test]
fn the_decrease_rounds_as_floats_do() {
    let now = Instant::from_micros(0);
    let mut cubic = avoiding(5000);
    cubic.set_mss(10);
    cubic.on_loss(now, 90);
    // 0.7 is a little less in binary: the product rounds to just below 63.
    assert_eq!(cubic.ssthresh, 62);
}

#[test]
fn fast_convergence_lowers_the_plateau() {
    let now = Instant::from_micros(0);
    let mut cubic = avoiding(20000);
    cubic.w_max = 30000;
    cubic.on_loss(now, 20000);
    assert_eq!(cubic.w_max, 17000);

    let mut cubic = avoiding(20000);
    cubic.w_max = 20000;
    cubic.on_loss(now, 20000);
    assert_eq!(cubic.w_max, 20000);

    // The least window leaves headroom too.
    let mut cubic = avoiding(1);
    cubic.on_loss(now, 1);
    assert_eq!(cubic.w_max, 0);
}

#[test]
fn a_small_flight_leaves_two_minimal_windows() {
    let now = Instant::from_micros(0);
    let mut cubic = avoiding(20000);
    cubic.on_loss(now, 100);
    assert_eq!(cubic.ssthresh, 4096);
    let mut cubic = avoiding(20000);
    cubic.on_rto(now, 100);
    assert_eq!(cubic.ssthresh, 4096);
}

#[test]
fn a_timeout_restarts_from_the_least_window() {
    let now = Instant::from_micros(7);
    let mut cubic = avoiding(20000);
    cubic.on_loss(now, 20000);
    cubic.on_rto(now, 30000);
    assert_eq!((cubic.window(), cubic.ssthresh, cubic.cwnd_prior), (2048, 15000, 30000));
    assert!(!cubic.in_fast_recovery);
    assert!(cubic.recovery_start.is_none());
    assert!(cubic.idle_start.is_none());
    assert_eq!(cubic.w_max, 20000);
}

#[test]
fn a_curve_without_a_loss_begins_at_the_window() {
    let now = Instant::from_micros(500);
    let mut cubic = avoiding(20000);
    cubic.on_ack(now, 1000, 1, &RttEstimator::default());
    assert_eq!(cubic.w_max, 20000);
    assert_eq!(float_fields(cubic.k), float_fields(of_float(0.0)));
    assert_eq!(cubic.recovery_start.unwrap().total_micros(), 500);
    // The Reno-friendly window is ahead: 20000 + 2048 * 1000 / 20000.
    assert_eq!(cubic.window(), 20102);
}

#[test]
fn idle_time_does_not_count() {
    let mut cubic = avoiding(20000);
    let rtt = RttEstimator::default();
    cubic.on_ack(Instant::from_micros(1000), 1000, 1, &rtt);
    cubic.on_ack(Instant::from_micros(5000), 1000, 0, &rtt);
    assert_eq!(cubic.idle_start.unwrap().total_micros(), 5000);
    cubic.post_transmit(Instant::from_micros(905_000), 1000);
    assert_eq!(cubic.recovery_start.unwrap().total_micros(), 901_000);
    assert!(cubic.idle_start.is_none());
    cubic.post_transmit(Instant::from_micros(990_000), 1000);
    assert_eq!(cubic.recovery_start.unwrap().total_micros(), 901_000);
}

#[test]
fn an_acknowledgement_ends_an_idle_period_too() {
    let mut cubic = avoiding(20000);
    let rtt = RttEstimator::default();
    cubic.on_ack(Instant::from_micros(1000), 1000, 1, &rtt);
    cubic.on_ack(Instant::from_micros(5000), 1000, 0, &rtt);
    cubic.on_ack(Instant::from_micros(905_000), 1000, 0, &rtt);
    assert_eq!(cubic.recovery_start.unwrap().total_micros(), 901_000);
    assert_eq!(cubic.idle_start.unwrap().total_micros(), 905_000);
}

#[test]
fn a_recovery_stands_until_new_data_is_acknowledged() {
    let rtt = RttEstimator::default();
    let mut cubic = avoiding(20000);
    cubic.on_loss(Instant::from_micros(1000), 20000);
    let k = float_fields(cubic.k);
    for i in 0..5 {
        let now = Instant::from_micros(2000 + i);
        cubic.on_dup_ack(now, 3000, 10);
        cubic.post_transmit(now, 3000);
        cubic.set_remote_window(20_000_000);
        cubic.on_loss(now, 90000);
    }
    assert_eq!(cubic.window(), 14000 + 3 * 2048 + 5 * 3000);
    assert_eq!((cubic.ssthresh, cubic.w_max, cubic.cwnd_prior), (14000, 20000, 20000));
    assert_eq!(cubic.recovery_start.unwrap().total_micros(), 1000);
    assert_eq!(float_fields(cubic.k), k);
    cubic.on_ack(Instant::from_micros(3000), 1480, 10, &rtt);
    assert_eq!(cubic.window(), 14000);
    assert!(!cubic.in_fast_recovery);
}

#[test]
fn a_time_before_the_idle_period_takes_nothing_out() {
    let mut cubic = avoiding(20000);
    let rtt = RttEstimator::default();
    cubic.on_ack(Instant::from_micros(5000), 1000, 0, &rtt);
    cubic.post_transmit(Instant::from_micros(4000), 1000);
    assert_eq!(cubic.recovery_start.unwrap().total_micros(), 5000);
    assert!(cubic.idle_start.is_none());
}

#[test]
fn a_time_before_the_curve_changes_nothing() {
    let mut cubic = avoiding(20000);
    let rtt = RttEstimator::default();
    cubic.on_ack(Instant::from_micros(5000), 1000, 1, &rtt);
    let cwnd = cubic.window();
    let w_est = float_fields(cubic.w_est);
    cubic.on_ack(Instant::from_micros(4000), 1000, 1, &rtt);
    assert_eq!(cubic.window(), cwnd);
    assert_eq!(float_fields(cubic.w_est), w_est);
}

#[test]
fn a_minimal_window_of_nothing() {
    // The offset of the curve is not a number then, and the target is 1.5 windows.
    let mut cubic = avoiding(20000);
    cubic.set_mss(0);
    assert!(matches!(cubic.k, Binary64::Nan));
    cubic.recovery_start = Some(Instant::from_micros(0));
    cubic.on_ack(Instant::from_micros(10), 1000, 1, &RttEstimator::default());
    assert_eq!(cubic.window(), 20000);
}

#[test]
fn the_largest_remote_window_counts_for_cubic() {
    let mut cubic = Cubic::new();
    cubic.set_remote_window(10);
    assert_eq!(cubic.rwnd, 65536);
    cubic.set_remote_window(70000);
    cubic.set_remote_window(66000);
    assert_eq!(cubic.rwnd, 70000);
}

#[test]
fn the_curve_grows_no_faster_than_slow_start() {
    let mut cubic = avoiding(20000);
    let rtt = RttEstimator::new(1_000_000);
    cubic.on_ack(Instant::from_micros(0), 1000, 1, &rtt);
    for i in 1..200 {
        let before = cubic.window();
        cubic.on_ack(Instant::from_millis(i * 1000), 1000, 1, &rtt);
        assert!(cubic.window() <= before + 1000);
        assert!(cubic.window() >= before);
    }
}
