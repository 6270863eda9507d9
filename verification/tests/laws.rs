use cubic::binary64::Binary64;
use cubic::cube_root::cube_root;
use cubic::cubic::{Cubic, RttEstimator};
use cubic::time::Instant;

const MSS: usize = 1024;

fn at(millis: i64) -> Instant {
    Instant::from_millis(millis)
}

fn soft(x: f64) -> Binary64 {
    Binary64::from_bits(x.to_bits())
}

fn root(a: f64) -> Option<f64> {
    cube_root(soft(a)).map(|x| f64::from_bits(x.to_bits()))
}

/// A controller in congestion avoidance, `w_max` bytes at the loss at time zero.
fn avoiding(w_max: usize, mss: usize) -> Cubic {
    let mut cubic = Cubic::new();
    cubic.set_mss(mss);
    cubic.set_remote_window(usize::MAX);
    cubic.w_max = w_max;
    cubic.ssthresh = 1;
    cubic.cwnd = w_max;
    cubic.recovery_start = Some(at(0));
    cubic
}

/// The window after an acknowledgement in congestion avoidance, on hardware floating point, with
/// the cube root of the library.
fn hardware_window(w_max: usize, mss: usize, millis: i64) -> usize {
    let c_bytes = 0.4 * mss as f64;
    let k3 = ((w_max as f64) * (1.0 - 0.7)) / c_bytes;
    let k = root(k3).unwrap();
    let s = millis as f64 / 1000.0 - k;
    let s = s * s * s;
    let cwnd = c_bytes * s + w_max as f64;
    (cwnd as usize).max(mss)
}

#[test]
fn new_controller() {
    let cubic = Cubic::new();
    assert_eq!(cubic.w_max, 2048);
    assert_eq!(cubic.window(), 2048);
    assert_eq!(cubic.min_cwnd, 2048);
    assert_eq!(cubic.rwnd, 65536);
    assert_eq!(cubic.ssthresh, usize::MAX);
    assert_eq!(cubic.recovery_start, None);
    assert!(!cubic.in_fast_recovery);
}

#[test]
fn windows_match_hardware() {
    for w_max in [1, 2048, 32768, 65536, 1_000_003, 1 << 40, usize::MAX] {
        for mss in [1, 536, 1024, 1460, 65535] {
            for millis in [0, 1, 10, 999, 2884, 3000, 60_000, 86_400_000] {
                let mut cubic = avoiding(w_max, mss);
                cubic.on_ack(at(millis), MSS, 0, &RttEstimator);
                assert_eq!(
                    cubic.window(),
                    hardware_window(w_max, mss, millis),
                    "{w_max} {mss} {millis}"
                );
            }
        }
    }
}

#[test]
fn window_on_the_curve() {
    let mut cubic = avoiding(32768, 1024);
    cubic.on_ack(at(1), MSS, 0, &RttEstimator);
    assert_eq!(cubic.window(), 22947);
}

#[test]
fn cuts_match_hardware() {
    for cwnd in [0, 1, 3, 10, 1000, 4096, 32768, 65535, 1 << 33, usize::MAX] {
        let mut cubic = Cubic::new();
        cubic.set_mss(0);
        cubic.set_remote_window(usize::MAX);
        cubic.cwnd = cwnd;
        cubic.w_max = usize::MAX;
        cubic.on_loss(at(5), 0);
        assert_eq!(cubic.ssthresh, (cwnd as f64 * 0.7) as usize);
        if cwnd < usize::MAX {
            assert_eq!(cubic.w_max, ((cwnd as f64) * (1.0 + 0.7) / 2.0) as usize);
        } else {
            assert_eq!(cubic.w_max, cwnd);
        }
    }
}

#[test]
fn cut_and_lowered_plateau() {
    let mut cubic = Cubic::new();
    cubic.set_mss(1);
    cubic.cwnd = 1000;
    cubic.w_max = 1001;
    cubic.on_loss(at(5), 0);
    assert_eq!(cubic.ssthresh, 700);
    assert_eq!(cubic.w_max, 850);
    assert_eq!(cubic.window(), 703);
}

#[test]
fn loss_shrinks_strictly() {
    for cwnd in [1, 2, 3, 7, 10, 2048, 1 << 53, usize::MAX - 1] {
        let mut cubic = Cubic::new();
        cubic.set_mss(0);
        cubic.cwnd = cwnd;
        cubic.w_max = usize::MAX;
        cubic.on_loss(at(0), 0);
        assert!(cubic.ssthresh < cwnd);
        assert!(cubic.w_max < cwnd);
    }
}

#[test]
fn avoidance_comes_back_to_remote_window() {
    let mut cubic = avoiding(32768, 1024);
    cubic.rwnd = 20_000;
    cubic.on_ack(at(1), MSS, 0, &RttEstimator);
    assert_eq!(cubic.window(), 20_000);
}

#[test]
fn curve_starts_at_cut_below_a_segment() {
    // A timeout and a loss leave a plateau of 0.85 of a segment.
    let mut cubic = Cubic::new();
    cubic.set_mss(MSS);
    cubic.on_rto(at(0), 0);
    cubic.w_max = 2 * MSS;
    cubic.on_loss(at(0), 0);
    assert_eq!(cubic.w_max, 870);
    let k = root(cubic.w_max as f64 * (1.0 - 0.7) / (0.4 * MSS as f64)).unwrap();
    let start = 0.4 * MSS as f64 * (-k * k * k) + cubic.w_max as f64;
    let start = start as usize;
    assert!(10 * start <= 7 * cubic.w_max);
    assert!(7 * cubic.w_max <= 10 * start + 10);
}

#[test]
fn cube_roots_are_accurate() {
    let small = [0.0078125, 0.1, 0.17, 0.5, 0.75, 1.0, 8.0, 24.0, 27.0, 699.0, 999.0];
    let large = [1e3, 1e6, 5e8, 1e9, 1e12, 1e15, 7e17, 1e19];
    for a in small.into_iter().chain(large) {
        let x = root(a).unwrap();
        assert!(((x * x * x - a) / a).abs() < 1e-10, "{a} {x}");
    }
}

/// Newton's method on hardware floating point.
fn hardware_root(a: f64) -> f64 {
    let (tolerance, guess) = if a < 1e3 {
        (1e-6, 8.879040017426005)
    } else if a < 1e6 {
        (5e-6, 88.79040017426004)
    } else if a < 1e9 {
        (5e-5, 887.9040017426004)
    } else if a < 1e12 {
        (5e-4, 8879.040017426003)
    } else if a < 1e15 {
        (5e-3, 88790.40017426001)
    } else {
        (5e-2, 887904.0017426)
    };
    let mut x: f64 = guess;
    for _ in 0..21 {
        let next = (2.0 * x + a / (x * x)) / 3.0;
        let step = next - x;
        x = next;
        if step.abs() < tolerance {
            break;
        }
    }
    x
}

#[test]
fn cube_roots_match_hardware() {
    let mut a = 1e-12;
    while a < 1e24 {
        assert_eq!(root(a).unwrap().to_bits(), hardware_root(a).to_bits(), "{a:e}");
        a *= 1.0371;
    }
}

#[test]
fn cube_roots_of_extreme_numbers() {
    let numbers = [5e-324, 1e-310, 2.5e-300, 1e-40, 1e-20, 1e-9, 1e25, 1e80, 1e150, 1e200, 1e300, f64::MAX];
    for a in numbers {
        let x = root(a).unwrap();
        assert_eq!(x.to_bits(), hardware_root(a).to_bits(), "{a:e}");
        assert!(x.is_finite() && x > 0.0);
        assert!(x >= a.cbrt() * (1.0 - 1e-12), "{a:e} {x:e}");
    }
}

#[test]
fn cube_roots_of_small_numbers_are_a_little_late() {
    for a in [5e-324, 1e-100, 1e-30, 1e-12, 1e-9, 1e-6, 1e-4, 0.001, 0.0078125, 0.3, 1.0f64] {
        let x = root(a).unwrap();
        assert!(x <= a.cbrt() + 1.0 / 512.0, "{a:e} {x:e}");
    }
}

#[test]
fn cube_root_of_special_numbers() {
    assert_eq!(root(0.0), None);
    assert_eq!(root(-0.0), None);
    assert_eq!(root(-1.0), None);
    assert_eq!(root(f64::NEG_INFINITY), None);
    assert!(root(f64::NAN).unwrap().is_nan());
    assert!(root(f64::INFINITY).unwrap().is_nan());
    // Too few steps for a number as small as this.
    assert!(root(1e-30).unwrap() > 1e-4);
}

#[test]
fn curve_never_falls() {
    let mut last = 0;
    for millis in 0..6000 {
        let mut cubic = avoiding(32768, 1024);
        cubic.on_ack(at(millis), MSS, 0, &RttEstimator);
        assert!(last <= cubic.window());
        last = cubic.window();
    }
}

#[test]
fn curve_meets_plateau_at_its_time() {
    // K is about 2.8845 s.
    let mut before = avoiding(32768, 1024);
    before.on_ack(at(2884), MSS, 0, &RttEstimator);
    assert!(before.window() <= 32768);
    let mut later = avoiding(32768, 1024);
    later.on_ack(at(2885), MSS, 0, &RttEstimator);
    assert!(later.window() >= 32768);
}

#[test]
fn curve_starts_at_cut() {
    for w_max in [2048, 10_000, 32768, 65536, 1_000_000] {
        let mut cubic = avoiding(w_max, 1024);
        cubic.on_ack(at(0), MSS, 0, &RttEstimator);
        assert!(10 * cubic.window() <= 7 * w_max);
        assert!(7 * w_max <= 10 * cubic.window() + 10);
    }
}

/// The time of the plateau, in seconds.
fn plateau_time(w_max: usize, mss: usize) -> f64 {
    root((w_max as f64) * (1.0 - 0.7) / (0.4 * mss as f64)).unwrap()
}

#[test]
fn plateau_far_below_a_segment() {
    for (w_max, mss) in [(1, 1 << 20), (1, 65535), (10, 65535), (500, 65535)] {
        let k = plateau_time(w_max, mss);
        let exact = (0.75 * w_max as f64 / mss as f64).cbrt();
        assert!(exact * (1.0 - 1e-11) <= k && k <= exact + 1.0 / 256.0);
        let start = 0.4 * mss as f64 * (-k * k * k) + w_max as f64;
        assert!(start <= 0.7 * w_max as f64 + 1e-6);
        let mut cubic = avoiding(w_max, mss);
        cubic.on_ack(at(0), MSS, 0, &RttEstimator);
        assert_eq!(cubic.window(), mss);
    }
}

#[test]
fn avoidance_approaches_plateau() {
    for (w_max, mss) in [(32768, 1024), (65536, 1460), (1_000_003, 536)] {
        let k = plateau_time(w_max, mss);
        for millis in (0..6000).step_by(7) {
            let mut cubic = avoiding(w_max, mss);
            cubic.on_ack(at(millis), MSS, 0, &RttEstimator);
            let distance = cubic.window().abs_diff(w_max) as f64;
            let exact = 0.4 * mss as f64 * (millis as f64 / 1000.0 - k).abs().powi(3);
            assert!(distance <= exact + 1.001, "{w_max} {mss} {millis}");
            assert!(exact <= distance + 1.001, "{w_max} {mss} {millis}");
        }
    }
}

#[test]
fn avoidance_grows_slowly() {
    for (w_max, mss) in [(32768, 1024), (65536, 1460), (1_000_003, 536)] {
        let k = plateau_time(w_max, mss);
        let last = (k * 1000.0) as i64;
        for (interval, millis) in (1..20).flat_map(|i| (0..last - i).step_by(31).map(move |m| (i, m))) {
            let mut cubic = avoiding(w_max, mss);
            cubic.on_ack(at(millis), MSS, 0, &RttEstimator);
            let before = cubic.window();
            cubic.on_ack(at(millis + interval), MSS, 0, &RttEstimator);
            let bound = 0.4 * mss as f64 * 3.0 * k * k * interval as f64 / 1000.0;
            assert!((cubic.window() - before) as f64 <= bound + 1.001);
            if bound + 1.001 < mss as f64 {
                assert!(cubic.window() < before + mss);
            }
        }
    }
}

#[test]
fn recovery_keeps_window() {
    for window in [4096, 10_000, 32_768, 50_001, 65_536] {
        let mut cubic = Cubic::new();
        cubic.set_mss(MSS);
        cubic.cwnd = window;
        cubic.on_loss(at(10), 0);
        cubic.on_dup_ack(at(11), MSS, 0);
        cubic.on_ack(at(12), MSS, 0, &RttEstimator);
        let threshold = cubic.window();
        assert_eq!(threshold, cubic.ssthresh);
        for millis in 10..200 {
            cubic.on_ack(at(millis), MSS, 0, &RttEstimator);
            assert!(cubic.window() + 1 >= threshold);
            if millis >= 12 {
                assert!(cubic.window() >= threshold);
            }
        }
    }
}

#[test]
fn window_stays_in_bounds() {
    let mut cubic = Cubic::new();
    cubic.set_mss(MSS);
    let mut seed: u32 = 7;
    for millis in 0..5000 {
        seed = seed.wrapping_mul(1_664_525).wrapping_add(1_013_904_223);
        let now = at(millis);
        match (seed >> 24) % 16 {
            0 => cubic.on_loss(now, 0),
            1 => cubic.on_rto(now, cubic.window()),
            2..=5 => cubic.on_dup_ack(now, (seed >> 16) as usize % 3000, 0),
            _ => cubic.on_ack(now, (seed >> 16) as usize % 3000, 0, &RttEstimator),
        }
        assert!(MSS <= cubic.window() && cubic.window() <= cubic.rwnd);
        assert!(2 * MSS <= cubic.ssthresh);
        assert!(!cubic.in_fast_recovery || cubic.ssthresh <= cubic.rwnd);
    }
}

#[test]
fn early_ack_changes_nothing() {
    let mut cubic = avoiding(32768, 1024);
    cubic.recovery_start = Some(at(100));
    cubic.on_ack(at(99), MSS, 0, &RttEstimator);
    assert_eq!(cubic.window(), 32768);
}

#[test]
fn no_plateau_changes_nothing() {
    let mut cubic = avoiding(0, 1024);
    cubic.cwnd = 4096;
    cubic.on_ack(at(50), MSS, 0, &RttEstimator);
    assert_eq!(cubic.window(), 4096);
}

#[test]
fn empty_segments_empty_the_window() {
    let mut cubic = avoiding(32768, 0);
    cubic.on_ack(at(50), MSS, 0, &RttEstimator);
    assert_eq!(cubic.window(), 0);
}

#[test]
fn loss_counts_once_and_ends_at_threshold() {
    let mut cubic = Cubic::new();
    cubic.set_mss(MSS);
    cubic.cwnd = MSS * 32;
    cubic.on_loss(at(1), 0);
    let ssthresh = cubic.ssthresh;
    cubic.on_dup_ack(at(2), 100, 0);
    let window = cubic.window();
    cubic.on_loss(at(3), 0);
    assert_eq!(cubic.window(), window);
    assert_eq!(cubic.ssthresh, ssthresh);
    assert_eq!(cubic.recovery_start, Some(at(1)));
    cubic.on_ack(at(4), MSS, 0, &RttEstimator);
    assert_eq!(cubic.window(), ssthresh);
    assert!(!cubic.in_fast_recovery);
}

#[test]
fn growth_is_capped_by_remote_window() {
    let mut cubic = Cubic::new();
    cubic.set_mss(MSS);
    cubic.cwnd = 65000;
    cubic.on_ack(at(1), MSS, 0, &RttEstimator);
    assert_eq!(cubic.window(), 65536);
    cubic.cwnd = usize::MAX - 1;
    cubic.in_fast_recovery = true;
    cubic.on_dup_ack(at(1), MSS, 0);
    assert_eq!(cubic.window(), 65536);
}

#[test]
fn small_remote_window_keeps_a_segment() {
    let mut cubic = Cubic::new();
    cubic.set_mss(MSS);
    cubic.rwnd = 10;
    cubic.on_ack(at(1), MSS, 0, &RttEstimator);
    assert_eq!(cubic.window(), MSS);
}

#[test]
fn remote_window_never_shrinks() {
    let mut cubic = Cubic::new();
    cubic.set_remote_window(100);
    assert_eq!(cubic.rwnd, 65536);
    cubic.set_remote_window(100_000);
    assert_eq!(cubic.rwnd, 100_000);
}

#[test]
fn timeout_keeps_two_segments() {
    let mut cubic = Cubic::new();
    cubic.set_mss(MSS);
    cubic.on_rto(at(7), 3000);
    assert_eq!(cubic.ssthresh, 2 * MSS);
    assert_eq!(cubic.window(), MSS);
    assert_eq!(cubic.recovery_start, Some(at(7)));
    cubic.on_rto(at(8), 10_001);
    assert_eq!(cubic.ssthresh, 5000);
}

#[test]
fn milliseconds_round_toward_zero() {
    assert_eq!(at(12).total_millis(), 12);
    assert_eq!(at(-12).total_millis(), -12);
    assert_eq!(at(0).total_millis(), 0);
}
