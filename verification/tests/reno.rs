use congestion::{Instant, Reno, RttEstimator};

#[test]
fn test_reno() {
    let remote_window = 64 * 1024;
    let now = Instant::from_millis(0);

    for i in 0..10 {
        for j in 0..9 {
            let mut reno = Reno::new();
            reno.set_mss(1480);

            // Set remote window.
            reno.set_remote_window(remote_window);

            reno.on_ack(now, 4096, reno.window(), &RttEstimator::default());

            let mut n = i;
            for _ in 0..j {
                n *= i;
            }

            if i & 1 == 0 {
                reno.on_rto(now, reno.window());
            } else {
                reno.on_dup_ack(now, 1480, reno.window());
            }

            let elapsed = Instant::from_millis(1000);
            reno.on_ack(elapsed, n, reno.window(), &RttEstimator::default());

            let cwnd = reno.window();
            println!("Reno: elapsed = {:?}, cwnd = {}", elapsed, cwnd);

            assert!(cwnd >= reno.min_cwnd);
            assert!(reno.window() <= remote_window);
        }
    }
}

#[test]
fn reno_min_cwnd() {
    let remote_window = 64 * 1024;
    let now = Instant::from_millis(0);

    let mut reno = Reno::new();
    reno.set_remote_window(remote_window);

    for _ in 0..100 {
        reno.on_rto(now, reno.window());
        assert!(reno.window() >= reno.min_cwnd);
    }
}

#[test]
fn reno_set_rwnd() {
    let mut reno = Reno::new();
    reno.set_remote_window(64 * 1024 * 1024);

    println!("{reno:?}");
}

fn fields(reno: &Reno) -> (usize, usize, usize, usize) {
    (reno.cwnd, reno.min_cwnd, reno.ssthresh, reno.rwnd)
}

#[test]
fn a_new_reno_controller() {
    assert_eq!(fields(&Reno::new()), (2048, 2048, usize::MAX, 65536));
}

#[test]
fn slow_start_adds_what_was_acknowledged() {
    let now = Instant::from_micros(5);
    let rtt = RttEstimator::new(20);
    let mut reno = Reno::new();
    reno.on_ack(now, 4096, 0, &rtt);
    assert_eq!(fields(&reno), (6144, 2048, usize::MAX, 65536));
    reno.on_ack(now, usize::MAX, 0, &rtt);
    assert_eq!(reno.window(), 65536);
}

#[test]
fn congestion_avoidance_adds_one_minimal_window() {
    let now = Instant::from_micros(5);
    let rtt = RttEstimator::new(20);
    let mut reno = Reno::new();
    reno.on_ack(now, 8192, 0, &rtt);
    reno.on_dup_ack(now, 0, 0);
    assert_eq!(fields(&reno), (10240, 2048, 5120, 65536));
    reno.on_ack(now, 1, 0, &rtt);
    assert_eq!(fields(&reno), (12288, 2048, 10240, 65536));
}

#[test]
fn timeouts_halve_the_window() {
    let now = Instant::from_micros(5);
    let mut reno = Reno::new();
    reno.on_ack(now, 20000, 0, &RttEstimator::default());
    assert_eq!(reno.window(), 22048);
    reno.on_rto(now, 0);
    assert_eq!(reno.window(), 11024);
    reno.on_rto(now, 0);
    reno.on_rto(now, 0);
    assert_eq!(reno.window(), 2756);
    reno.on_rto(now, 0);
    assert_eq!(reno.window(), 2048);
}

#[test]
fn an_acknowledgement_brings_the_window_into_bounds() {
    let now = Instant::from_micros(5);
    let mut reno = Reno::new();
    reno.set_mss(100000);
    assert_eq!(reno.window(), 2048);
    reno.on_ack(now, 1, 0, &RttEstimator::default());
    assert_eq!(reno.window(), 100000);
}

#[test]
fn the_largest_remote_window_counts_for_reno() {
    let mut reno = Reno::new();
    reno.set_remote_window(10);
    assert_eq!(reno.rwnd, 65536);
    reno.set_remote_window(70000);
    reno.set_remote_window(66000);
    assert_eq!(reno.rwnd, 70000);
}

#[test]
fn instants() {
    assert_eq!(Instant::from_millis(-3).total_micros(), -3000);
    assert_eq!(Instant::from_micros(7).total_micros(), 7);
    assert_eq!(RttEstimator::new(33).smoothed_rtt(), 33);
    assert_eq!(RttEstimator::default().smoothed_rtt(), 0);
}
