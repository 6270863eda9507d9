use cubic::binary64::Binary64;
use cubic::cube_root::cube_root;
use cubic::cubic::{Cubic, RttEstimator};
use cubic::time::Instant;

const BETA_CUBIC: f64 = 0.7;
const MSS: usize = 1024;

fn ack(cubic: &mut Cubic, len: usize, now: Instant) {
    let in_flight = cubic.window().saturating_sub(MSS);
    cubic.on_ack(now, len, in_flight, &rtte())
}

fn rtte() -> RttEstimator {
    RttEstimator::default()
}

#[test]
fn congestion_avoidance_works() {
    let mut cubic = Cubic::new();
    cubic.set_mss(MSS);
    cubic.w_max = MSS * 32;

    // Post-fast-recovery state: cwnd = ssthresh, about w_max * beta.
    cubic.cwnd = (MSS * 32 * 7) / 10;
    cubic.ssthresh = cubic.cwnd;
    cubic.recovery_start = Some(Instant::from_millis(0));

    // CA at small time intervals should grow by less than 1 MSS per ACK.
    for i in 1..10 {
        let initial_cwnd = cubic.window();
        ack(&mut cubic, MSS, Instant::from_millis(i));
        assert!(cubic.window() < initial_cwnd + MSS);
    }

    // CA approaches w_max as t approaches K, and exceeds it past K.
    let pre = cubic.window();
    ack(&mut cubic, MSS, Instant::from_millis(3000));
    assert!(cubic.window() >= cubic.w_max);
    assert!(cubic.window() > pre);

    // CA should cap at the receive window.
    ack(&mut cubic, MSS, Instant::from_millis(100_000));
    assert_eq!(cubic.window(), cubic.rwnd);
}

#[test]
fn fast_recovery_works() {
    let mut cubic = Cubic::new();
    cubic.set_mss(MSS);
    cubic.cwnd = MSS * 32;

    // duplicate ACKs before fast recovery should do nothing
    let initial_cwnd = cubic.window();
    for _ in 0..3 {
        cubic.on_dup_ack(Instant::from_millis(0), MSS, initial_cwnd);
    }
    assert_eq!(cubic.window(), initial_cwnd);

    // we enter fast recovery upon minor loss (three duplicate ACKs).
    // ssthresh = cwnd * beta_cubic, cwnd = ssthresh + 3*MSS, recovery_start = now.
    // w_max = cwnd since the prior w_max (initial 2*MSS) is below cwnd.
    let expected_ssthresh = (initial_cwnd as f64 * BETA_CUBIC) as usize;
    cubic.on_loss(Instant::from_millis(0), initial_cwnd / 2);
    assert_eq!(cubic.ssthresh, expected_ssthresh);
    assert_eq!(cubic.cwnd, expected_ssthresh + 3 * MSS);
    assert_eq!(cubic.w_max, initial_cwnd);
    assert!(cubic.in_fast_recovery);
    assert_eq!(cubic.recovery_start, Some(Instant::from_millis(0)));

    // in fast recovery, each dup-ACK should increase the cwnd by 1 MSS
    let initial_cwnd = cubic.window();
    for i in 0..3 {
        for _ in 0..3 {
            let initial_cwnd = cubic.window();
            cubic.on_dup_ack(Instant::from_millis(i), MSS, initial_cwnd);
            assert_eq!(cubic.window(), initial_cwnd + MSS);
        }

        // multiple loss events (trip-dup-ack) should not trigger additional fast recovery reductions
        let initial_cwnd = cubic.window();
        let initial_ssthresh = cubic.ssthresh;
        let initial_w_max = cubic.w_max;
        cubic.on_loss(Instant::from_millis(i), initial_cwnd);
        assert_eq!(cubic.window(), initial_cwnd);
        assert_eq!(cubic.ssthresh, initial_ssthresh);
        assert_eq!(cubic.w_max, initial_w_max);
    }
    assert_eq!(cubic.window(), initial_cwnd + MSS * 9);

    // a non-duplicate ACK exits fast recovery and deflates cwnd to ssthresh
    ack(&mut cubic, MSS, Instant::from_millis(10));
    assert_eq!(cubic.window(), cubic.ssthresh);
    assert!(!cubic.in_fast_recovery);
}

#[test]
fn slow_start_works() {
    let mut cubic = Cubic::new();
    cubic.set_mss(MSS);
    cubic.cwnd = MSS * 32;
    cubic.ssthresh = MSS * 16;

    // we enter slow start upon major loss (an RTO)
    // window resets to MSS, ssthresh becomes half the in-flight bytes,
    // and recovery_start is updated so any later CA uses a fresh epoch.
    let initial_cwnd = cubic.window();
    let inflight = initial_cwnd;
    cubic.on_rto(Instant::from_millis(0), inflight);
    assert_eq!(cubic.ssthresh, inflight / 2);
    assert_eq!(cubic.window(), MSS);
    assert!(!cubic.in_fast_recovery);
    assert_eq!(cubic.recovery_start, Some(Instant::from_millis(0)));
    assert_eq!(cubic.w_max, initial_cwnd);

    // slow start grows by at most the MSS per ack
    let initial_cwnd = cubic.window();
    for i in 0..10 {
        let initial_cwnd = cubic.window();
        let now = Instant::from_millis(i);
        ack(&mut cubic, MSS * 2, now);
        assert_eq!(cubic.window(), initial_cwnd + MSS);
    }
    assert_eq!(cubic.window(), initial_cwnd + MSS * 10);

    // slow start uses the number of ACKed bytes if they're less than the MSS
    let initial_cwnd = cubic.window();
    for i in 0..10 {
        let initial_cwnd = cubic.window();
        let now = Instant::from_millis(10 + i);
        ack(&mut cubic, MSS / 2, now);
        assert_eq!(cubic.window(), initial_cwnd + MSS / 2);
    }
    assert_eq!(cubic.window(), initial_cwnd + MSS / 2 * 10);

    // slow start transitions to congestion avoidance at ssthresh
    let initial_cwnd = cubic.window();
    cubic.ssthresh = initial_cwnd + MSS;
    ack(&mut cubic, MSS, Instant::from_millis(30));
    assert_eq!(cubic.window(), initial_cwnd + MSS);
    assert_eq!(cubic.ssthresh, initial_cwnd + MSS);
}

#[test]
fn progress_to_ca_via_rto() {
    let mut cubic = Cubic::new();
    cubic.set_mss(MSS);

    let mut time = 0;

    // slow start from default state
    let initial_cwnd = cubic.window();
    for _ in 0..30 {
        time += 1;
        ack(&mut cubic, MSS, Instant::from_millis(time));
    }
    assert_eq!(cubic.window(), initial_cwnd + MSS * 30);
    assert!(cubic.window() < cubic.ssthresh);

    // rto: cwnd resets to MSS, ssthresh becomes half in-flight bytes
    let rto_cwnd = cubic.window();
    cubic.on_rto(Instant::from_millis(time), rto_cwnd);
    assert_eq!(cubic.window(), MSS);
    assert_eq!(cubic.ssthresh, rto_cwnd / 2);
    assert_eq!(cubic.w_max, rto_cwnd);

    // slow start again until cwnd reaches new ssthresh
    while cubic.window() < cubic.ssthresh {
        time += 1;
        let initial_cwnd = cubic.window();
        ack(&mut cubic, MSS, Instant::from_millis(time));
        assert_eq!(cubic.window(), initial_cwnd + MSS);
    }
    assert_eq!(cubic.window(), cubic.ssthresh);

    // ca: subsequent ACKs follow the cubic curve
    time += 1;
    let initial_cwnd = cubic.window();
    ack(&mut cubic, MSS, Instant::from_millis(time));
    assert!(cubic.window() > initial_cwnd);
}

#[test]
fn progress_to_ca_via_loss() {
    let mut cubic = Cubic::new();
    cubic.set_mss(MSS);

    let mut time = 0;

    // slow start from default state
    let initial_cwnd = cubic.window();
    for _ in 0..30 {
        time += 1;
        ack(&mut cubic, MSS, Instant::from_millis(time));
    }
    assert_eq!(cubic.window(), initial_cwnd + MSS * 30);
    assert!(cubic.window() < cubic.ssthresh);

    // dup ACKs: ssthresh = cwnd * beta, cwnd = ssthresh + 3*MSS, recovery_start = now
    time += 1;
    let loss_cwnd = cubic.window();
    let expected_ssthresh = (loss_cwnd as f64 * BETA_CUBIC) as usize;
    cubic.on_loss(Instant::from_millis(time), loss_cwnd);
    assert_eq!(cubic.ssthresh, expected_ssthresh);
    assert_eq!(cubic.window(), expected_ssthresh + 3 * MSS);
    assert!(cubic.in_fast_recovery);
    assert_eq!(cubic.recovery_start, Some(Instant::from_millis(time)));

    // inflate cwnd on each duplicate ACK
    for _ in 0..9 {
        time += 1;
        let initial_cwnd = cubic.window();
        cubic.on_dup_ack(Instant::from_millis(time), MSS, cubic.cwnd);
        assert_eq!(cubic.window(), initial_cwnd + MSS);
    }

    // non-duplicate ACK deflates cwnd to ssthresh
    time += 1;
    ack(&mut cubic, MSS, Instant::from_millis(time));
    assert_eq!(cubic.window(), expected_ssthresh);
    assert!(!cubic.in_fast_recovery);

    // ca: subsequent ACKs follow the cubic curve
    time += 1;
    let initial_cwnd = cubic.window();
    ack(&mut cubic, MSS, Instant::from_millis(time));
    assert!(cubic.window() >= initial_cwnd);
}

#[test]
fn fast_convergence_reduces_w_max() {
    let mut cubic = Cubic::new();
    cubic.set_mss(MSS);
    cubic.w_max = MSS * 50;
    cubic.cwnd = MSS * 30;

    // Loss while cwnd < w_max (a new competing flow) should pull w_max down.
    let w_max_prev = cubic.w_max;
    cubic.on_loss(Instant::from_millis(0), cubic.cwnd);
    assert!(cubic.w_max < w_max_prev);
}

#[test]
fn test_cube_root() {
    for n in (1..1000000).step_by(99) {
        let a = Binary64::whole(n);
        let a = a.times(a).times(a);
        let result = cube_root(a);
        println!(
            "cube_root({}) = {}",
            f64::from_bits(a.to_bits()),
            f64::from_bits(result.unwrap().to_bits())
        );
    }
}

#[test]
#[should_panic]
fn cube_root_zero() {
    cube_root(Binary64::from_bits((0.0f64).to_bits())).unwrap();
}
