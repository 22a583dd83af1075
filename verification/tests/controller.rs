use std::sync::Arc;

use brutal::binary64::Binary64;
use brutal::config::BrutalConfig;
use brutal::controller::{Brutal, TransferableState};
use brutal::time::{Duration, Instant};

fn make_config(target_mbps: u64) -> Arc<BrutalConfig> {
    Arc::new(BrutalConfig::new(target_mbps))
}

fn number(x: f64) -> Binary64 {
    Binary64 { bits: x.to_bits() }
}

fn value(x: Binary64) -> f64 {
    f64::from_bits(x.bits)
}

fn at_millis(millis: u64) -> Instant {
    Instant::at(Duration::from_millis(millis))
}

fn ack(brutal: &mut Brutal, millis: u64) {
    let now = at_millis(millis);
    brutal.on_ack(now, now, 1200, false, Duration::from_millis(100));
}

fn lose(brutal: &mut Brutal, millis: u64) {
    let now = at_millis(millis);
    brutal.on_congestion_event(now, now, false, 1200);
}

/// Counts packets in one second, and goes on to the next second with one more ack.
fn sample(brutal: &mut Brutal, second: u64, acks: u64, losses: u64) {
    for _ in 0..acks {
        ack(brutal, 1000 * second);
    }
    for _ in 0..losses {
        lose(brutal, 1000 * second);
    }
    ack(brutal, 1000 * (second + 1));
}

#[test]
fn test_config_conversion() {
    let config = BrutalConfig::new(100); // 100 Mbps
    // 100 Mbps = 100 * 1_000_000 / 8 = 12_500_000 bytes/s
    assert_eq!(config.target_bps, 12_500_000);
}

#[test]
fn test_config_builder() {
    let mut config = BrutalConfig::default();
    config.target_mbps(200).min_ack_rate(number(0.5));
    assert_eq!(config.target_bps, 200 * 1_000_000 / 8);
    assert!((value(config.min_ack_rate) - 0.5).abs() < f64::EPSILON);
}

#[test]
fn test_min_ack_rate_clamping() {
    let mut config = BrutalConfig::default();
    config.min_ack_rate(number(0.05)); // Below minimum
    assert!((value(config.min_ack_rate) - 0.1).abs() < f64::EPSILON);

    config.min_ack_rate(number(1.5)); // Above maximum
    assert!((value(config.min_ack_rate) - 1.0).abs() < f64::EPSILON);
}

#[test]
fn test_initial_ack_rate() {
    let config = make_config(100);
    let brutal = Brutal::new(config, 1200);
    assert!((value(brutal.ack_rate()) - 1.0).abs() < f64::EPSILON);
}

#[test]
fn test_minimum_window() {
    let config = make_config(100);
    let brutal = Brutal::new(config, 1200);
    assert_eq!(brutal.minimum_window(), 4 * 1200);
}

#[test]
fn test_cwnd_calculation() {
    let config = make_config(100);
    let mut brutal = Brutal::new(config, 1200);

    // With default RTT of 100ms and ack_rate of 1.0:
    // CWND = (12_500_000 * 0.1 * 2) / 1.0 = 2_500_000 bytes
    let cwnd = brutal.calculate_cwnd();
    assert!(cwnd >= 2_000_000, "CWND should be approximately 2.5MB");
    assert_eq!(cwnd, 2_500_000);

    // With lower ACK rate, CWND should increase
    sample(&mut brutal, 0, 40, 10);
    assert_eq!(brutal.ack_rate().bits, 0.8f64.to_bits());
    let cwnd_with_loss = brutal.calculate_cwnd();
    assert!(
        cwnd_with_loss > cwnd,
        "CWND should increase when ACK rate decreases"
    );
    assert_eq!(cwnd_with_loss, 3_125_000);
}

#[test]
fn test_pacing_rate() {
    let config = make_config(100);
    let mut brutal = Brutal::new(config, 1200);

    // With ack_rate of 1.0:
    // pacing_rate = (12_500_000 / 1.0) * 8 = 100_000_000 bits/s = 100 Mbps
    let rate = brutal.pacing_rate();
    assert_eq!(rate, 100_000_000);

    // With lower ACK rate, pacing rate should increase
    sample(&mut brutal, 0, 40, 10);
    assert_eq!(brutal.ack_rate().bits, 0.8f64.to_bits());
    let rate_with_loss = brutal.pacing_rate();
    assert!(
        rate_with_loss > rate,
        "Pacing rate should increase when ACK rate decreases"
    );
    assert_eq!(rate_with_loss, 125_000_000);
}

#[test]
fn test_controller_name() {
    let config = make_config(100);
    let brutal = Brutal::new(config, 1200);
    assert_eq!(brutal.name(), "brutal");
}

#[test]
fn brutal_basic_functionality() {
    let config = Arc::new(BrutalConfig::new(100)); // 100 Mbps
    let brutal = config.build(at_millis(0), 1200);

    assert_eq!(brutal.name(), "brutal");
    assert!(brutal.window() >= 4 * 1200); // At least 4 * MTU
}

#[test]
fn brutal_respects_minimum_window() {
    let config = Arc::new(BrutalConfig::new(1)); // Very low bandwidth
    let brutal = config.build(at_millis(0), 1200);

    let cwnd = brutal.window();
    assert!(cwnd >= 4 * 1200, "CWND = {}", cwnd);
}

#[test]
fn brutal_mtu_update() {
    let config = Arc::new(BrutalConfig::new(100));
    let mut brutal = config.build(at_millis(0), 1200);

    let cwnd_before = brutal.window();

    brutal.on_mtu_update(1500);

    let cwnd_after = brutal.window();

    // The minimum window grows with the MTU.
    assert!(cwnd_after >= cwnd_before);
}

#[test]
fn brutal_pacing_rate() {
    let config = Arc::new(BrutalConfig::new(100)); // 100 Mbps
    let brutal = config.build(at_millis(0), 1200);

    let metrics = brutal.metrics();

    assert!(metrics.pacing_rate.is_some());

    // With perfect delivery the pacing rate is about 100 Mbps.
    let pacing_rate_bps = metrics.pacing_rate.unwrap();
    assert!(
        pacing_rate_bps >= 90_000_000 && pacing_rate_bps <= 110_000_000,
        "Pacing rate = {} bps",
        pacing_rate_bps
    );
}

#[test]
fn brutal_state_transfer() {
    let config = Arc::new(BrutalConfig::new(100));
    let brutal1 = config.clone().build(at_millis(0), 1200);

    let state = brutal1.transferable_state();

    let mut brutal2 = config.build(at_millis(0), 1200);
    let applied = brutal2.apply_transferred_state(&state);

    assert!(applied);
}

#[test]
fn brutal_config_builder() {
    let mut config = BrutalConfig::new(100);
    config.target_mbps(200).min_ack_rate(number(0.5));

    let brutal = Arc::new(config).build(at_millis(0), 1200);

    assert_eq!(brutal.name(), "brutal");
    assert!(brutal.window() > 0);
}

#[test]
fn brutal_clone_box() {
    let config = Arc::new(BrutalConfig::new(100));
    let brutal = config.build(at_millis(0), 1200);

    let cloned = brutal.clone_box();

    assert_eq!(cloned.name(), "brutal");
    assert_eq!(cloned.window(), brutal.window());
}

#[test]
fn config_defaults() {
    let config = BrutalConfig::default();
    assert_eq!(config.target_bps, 1_250_000);
    assert_eq!(config.initial_window, 12_000);
    assert_eq!(config.min_ack_rate.bits, 0.8f64.to_bits());
    let config = BrutalConfig::new(3);
    assert_eq!(config.target_bps, 375_000);
    assert_eq!(config.initial_window, 12_000);
    assert_eq!(config.min_ack_rate.bits, 0.8f64.to_bits());
}

#[test]
fn config_setters_touch_one_field_each() {
    let mut config = BrutalConfig::new(1);
    config.target_bps(7).initial_window(99);
    assert_eq!(config.target_bps, 7);
    assert_eq!(config.initial_window, 99);
    assert_eq!(config.min_ack_rate.bits, 0.8f64.to_bits());
    let copy = config.clone();
    config.target_mbps(8);
    assert_eq!(config.target_bps, 1_000_000);
    assert_eq!(config.initial_window, 99);
    assert_eq!(copy.target_bps, 7);
}

#[test]
fn config_floor_of_odd_values() {
    let mut config = BrutalConfig::default();
    for (rate, floor) in [
        (-1.0, 0.1),
        (-0.0, 0.1),
        (0.0, 0.1),
        (0.1, 0.1),
        (f64::from_bits(1), 0.1),
        (0.75, 0.75),
        (1.0, 1.0),
        (f64::INFINITY, 1.0),
        (f64::NEG_INFINITY, 0.1),
    ] {
        config.min_ack_rate(number(rate));
        assert_eq!(config.min_ack_rate.bits, f64::to_bits(floor));
    }
    config.min_ack_rate(number(f64::NAN));
    assert!(value(config.min_ack_rate).is_nan());
}

#[test]
fn small_samples_do_not_count() {
    let mut brutal = Brutal::new(make_config(100), 1200);
    sample(&mut brutal, 0, 0, 49);
    assert_eq!(value(brutal.ack_rate()), 1.0);
    let mut brutal = Brutal::new(make_config(100), 1200);
    sample(&mut brutal, 0, 0, 50);
    assert_eq!(value(brutal.ack_rate()), 0.8);
}

#[test]
fn present_second_does_not_count() {
    let mut brutal = Brutal::new(make_config(100), 1200);
    for _ in 0..1000 {
        lose(&mut brutal, 500);
        assert_eq!(value(brutal.ack_rate()), 1.0);
    }
    ack(&mut brutal, 1499);
    assert_eq!(value(brutal.ack_rate()), 1.0);
    ack(&mut brutal, 1500);
    assert_eq!(value(brutal.ack_rate()), 0.8);
}

#[test]
fn rate_follows_the_share_of_acks() {
    let mut brutal = Brutal::new(make_config(100), 1200);
    sample(&mut brutal, 0, 90, 10);
    assert_eq!(value(brutal.ack_rate()), 0.9);
    assert_eq!(brutal.window(), (12_500_000.0 * 0.1 * 2.0 / 0.9) as u64);
    assert_eq!(brutal.window(), 2_777_777);
    assert_eq!(brutal.pacing_rate(), 111_111_111);
}

#[test]
fn samples_without_loss_have_full_rate() {
    let mut brutal = Brutal::new(make_config(100), 1200);
    for second in 0..20 {
        sample(&mut brutal, second, 77, 0);
        assert_eq!(value(brutal.ack_rate()), 1.0);
        assert_eq!(brutal.pacing_rate(), 100_000_000);
    }
}

#[test]
fn losses_are_forgotten_after_the_window() {
    let mut brutal = Brutal::new(make_config(100), 1200);
    sample(&mut brutal, 0, 90, 10);
    for second in 2..5 {
        ack(&mut brutal, 1000 * second);
        assert!(value(brutal.ack_rate()) < 1.0);
    }
    ack(&mut brutal, 5000);
    assert_eq!(value(brutal.ack_rate()), 1.0);
}

#[test]
fn stale_slots_are_skipped() {
    let mut brutal = Brutal::new(make_config(100), 1200);
    // Seconds 0 to 3 each hold many losses.
    for second in 0..4 {
        for _ in 0..100 {
            lose(&mut brutal, 1000 * second);
        }
    }
    ack(&mut brutal, 4000);
    assert_eq!(value(brutal.ack_rate()), 0.8);
    // At second 9 the slots of seconds 0 to 3 are stale, though nothing has replaced them.
    ack(&mut brutal, 9000);
    assert_eq!(value(brutal.ack_rate()), 1.0);
    // At second 7 the slot of second 3 still counts.
    let mut brutal = Brutal::new(make_config(100), 1200);
    for _ in 0..100 {
        lose(&mut brutal, 0);
    }
    for _ in 0..100 {
        lose(&mut brutal, 3000);
    }
    ack(&mut brutal, 7000);
    assert_eq!(value(brutal.ack_rate()), 0.8);
    ack(&mut brutal, 8000);
    assert_eq!(value(brutal.ack_rate()), 1.0);
}

#[test]
fn clock_that_goes_back_stays_at_the_first_second() {
    let mut brutal = Brutal::new(make_config(100), 1200);
    for _ in 0..100 {
        lose(&mut brutal, 10_000);
    }
    // Earlier than the first event: still the second of the first event.
    lose(&mut brutal, 3_000);
    assert_eq!(value(brutal.ack_rate()), 1.0);
    ack(&mut brutal, 11_000);
    assert_eq!(value(brutal.ack_rate()), 0.8);
}

#[test]
fn zero_round_trip_gives_the_initial_window() {
    let mut config = BrutalConfig::new(100);
    config.initial_window(100_000);
    let mut brutal = Brutal::new(Arc::new(config), 1200);
    let now = at_millis(0);
    brutal.on_ack(now, now, 1200, false, Duration::from_millis(0));
    assert_eq!(brutal.window(), 100_000);
    assert_eq!(brutal.initial_window(), 100_000);
    brutal.on_ack(now, now, 1200, false, Duration::new(0, 1));
    assert_eq!(brutal.window(), 4800);
}

#[test]
fn small_initial_window_gives_way_to_the_minimum() {
    let mut config = BrutalConfig::new(100);
    config.initial_window(42);
    let mut brutal = Brutal::new(Arc::new(config), 1200);
    let now = at_millis(0);
    brutal.on_ack(now, now, 1200, false, Duration::from_millis(0));
    assert_eq!(brutal.initial_window(), 42);
    assert_eq!(brutal.window(), 4800);
    assert_eq!(brutal.metrics().congestion_window, 4800);
    assert_eq!(brutal.transferable_state().congestion_window, 4800);
    brutal.on_mtu_update(9000);
    assert_eq!(brutal.window(), 36_000);
}

#[test]
fn window_follows_the_round_trip_time() {
    let mut brutal = Brutal::new(make_config(100), 1200);
    let now = at_millis(0);
    brutal.on_ack(now, now, 1200, false, Duration::from_millis(300));
    assert_eq!(brutal.window(), 7_500_000);
    brutal.on_ack(now, now, 1200, false, Duration::new(2, 0));
    assert_eq!(brutal.window(), 50_000_000);
    brutal.on_mtu_update(65535);
    brutal.on_ack(now, now, 1200, false, Duration::new(0, 1000));
    assert_eq!(brutal.window(), 4 * 65535);
}

#[test]
fn rates_without_floor() {
    let mut config = BrutalConfig::new(100);
    config.min_ack_rate(number(f64::NAN));
    let mut brutal = Brutal::new(Arc::new(config), 1200);
    sample(&mut brutal, 0, 5, 95);
    assert_eq!(value(brutal.ack_rate()), 0.05);
    assert_eq!(brutal.window(), 50_000_000);
    let mut config = BrutalConfig::new(100);
    config.min_ack_rate(number(f64::NAN));
    let mut brutal = Brutal::new(Arc::new(config), 1200);
    sample(&mut brutal, 0, 0, 100);
    assert_eq!(value(brutal.ack_rate()), 0.0);
    assert_eq!(brutal.window(), u64::MAX);
    assert_eq!(brutal.pacing_rate(), u64::MAX);
    let mut config = BrutalConfig::new(0);
    config.min_ack_rate(number(f64::NAN));
    let mut brutal = Brutal::new(Arc::new(config), 1200);
    sample(&mut brutal, 0, 0, 100);
    assert_eq!(brutal.window(), 4800);
    assert_eq!(brutal.pacing_rate(), 0);
}

#[test]
fn transfer_starts_over() {
    let mut brutal = Brutal::new(make_config(100), 1200);
    sample(&mut brutal, 0, 40, 60);
    assert_eq!(value(brutal.ack_rate()), 0.8);
    let state = TransferableState {
        congestion_window: 1,
        ssthresh: Some(2),
        in_recovery: true,
    };
    assert!(brutal.apply_transferred_state(&state));
    assert_eq!(value(brutal.ack_rate()), 1.0);
    assert_eq!(brutal.window(), 2_500_000);
    // The clock begins anew with the next event, and nothing old counts.
    ack(&mut brutal, 1_000_000);
    ack(&mut brutal, 1_001_000);
    assert_eq!(value(brutal.ack_rate()), 1.0);
    let handed = brutal.transferable_state();
    assert_eq!(handed.congestion_window, 2_500_000);
    assert_eq!(handed.ssthresh, None);
    assert!(!handed.in_recovery);
}

#[test]
fn metrics_report_window_and_pace() {
    let mut brutal = Brutal::new(make_config(10), 1200);
    sample(&mut brutal, 0, 90, 10);
    let metrics = brutal.metrics();
    assert_eq!(metrics.congestion_window, brutal.window());
    assert_eq!(metrics.ssthresh, None);
    assert_eq!(metrics.pacing_rate, Some(brutal.pacing_rate()));
}

#[test]
fn copies_go_their_own_way() {
    let mut brutal = Brutal::new(make_config(100), 1200);
    for _ in 0..40 {
        ack(&mut brutal, 0);
    }
    for _ in 0..10 {
        lose(&mut brutal, 0);
    }
    let mut copy = brutal.clone_box();
    ack(&mut copy, 1000);
    assert_eq!(value(copy.ack_rate()), 0.8);
    assert_eq!(value(brutal.ack_rate()), 1.0);
    assert!(brutal.has_room());
    assert!(copy.has_room());
}

#[test]
fn bandwidths_are_paced_exactly() {
    for mbps in [1, 10, 50, 100, 200, 10_000, 1_000_000] {
        let brutal = Brutal::new(make_config(mbps), 1200);
        assert_eq!(brutal.pacing_rate(), mbps * 1_000_000);
    }
}

#[test]
fn more_losses_send_more() {
    let mut last = 0;
    let mut last_pace = 0;
    for losses in 0..60 {
        let mut config = BrutalConfig::new(100);
        config.min_ack_rate(number(0.1));
        let mut brutal = Brutal::new(Arc::new(config), 1200);
        sample(&mut brutal, 0, 60, losses);
        assert!(brutal.window() > last);
        assert!(brutal.pacing_rate() > last_pace);
        last = brutal.window();
        last_pace = brutal.pacing_rate();
    }
}

#[test]
fn larger_mtu_raises_the_minimum() {
    let mut brutal = Brutal::new(make_config(0), 1200);
    assert_eq!(brutal.window(), 4800);
    brutal.on_mtu_update(1500);
    assert_eq!(brutal.window(), 6000);
    brutal.on_mtu_update(u16::MAX);
    assert_eq!(brutal.window(), 262_140);
}

#[test]
fn small_sample_sends_no_more_than_a_larger_one_with_losses() {
    // The second sample has the same acks and more losses, the first is too small to count.
    let mut small = Brutal::new(make_config(100), 1200);
    sample(&mut small, 0, 40, 5);
    let mut large = Brutal::new(make_config(100), 1200);
    sample(&mut large, 0, 40, 15);
    assert_eq!(value(small.ack_rate()), 1.0);
    assert_eq!(value(large.ack_rate()), 0.8);
    assert!(small.window() <= large.window());
    assert!(small.pacing_rate() <= large.pacing_rate());
}

#[test]
fn lower_floor_sends_more() {
    let mut windows: Vec<u64> = vec![];
    let mut paces: Vec<u64> = vec![];
    for floor in [f64::NAN, 0.1, 0.5, 0.8, 1.0] {
        let mut config = BrutalConfig::new(100);
        config.min_ack_rate(number(floor));
        let mut brutal = Brutal::new(Arc::new(config), 1200);
        sample(&mut brutal, 0, 40, 60);
        windows.push(brutal.window());
        paces.push(brutal.pacing_rate());
    }
    assert_eq!(windows, vec![6_250_000, 6_250_000, 5_000_000, 3_125_000, 2_500_000]);
    assert_eq!(paces, vec![250_000_000, 250_000_000, 200_000_000, 125_000_000, 100_000_000]);
}

#[test]
fn only_elapsed_time_matters() {
    let mut early = Brutal::new(make_config(100), 1200);
    let mut late = Brutal::new(make_config(100), 1200);
    for step in 0..2_000u64 {
        let now = step * 7;
        if step % 9 == 0 {
            lose(&mut early, now);
            lose(&mut late, now + 123_456_789);
        } else {
            ack(&mut early, now);
            ack(&mut late, now + 123_456_789);
        }
        assert_eq!(early.ack_rate().bits, late.ack_rate().bits);
        assert_eq!(early.window(), late.window());
    }
    assert!(value(early.ack_rate()) < 1.0);
}

#[test]
fn order_within_a_moment_does_not_matter() {
    let mut one_way = Brutal::new(make_config(100), 1200);
    let mut other_way = Brutal::new(make_config(100), 1200);
    for step in 0..200u64 {
        let now = step * 25;
        ack(&mut one_way, now);
        lose(&mut one_way, now);
        lose(&mut other_way, now);
        ack(&mut other_way, now);
        assert_eq!(one_way.ack_rate().bits, other_way.ack_rate().bits);
    }
    assert_eq!(value(one_way.ack_rate()), 0.8);
}

#[test]
fn rate_is_steady_within_a_second() {
    let mut brutal = Brutal::new(make_config(100), 1200);
    sample(&mut brutal, 0, 90, 10);
    let window = brutal.window();
    for millis in 1000..2000 {
        lose(&mut brutal, millis);
        assert_eq!(value(brutal.ack_rate()), 0.9);
        assert_eq!(brutal.window(), window);
    }
    lose(&mut brutal, 2000);
    assert_eq!(value(brutal.ack_rate()), 0.8);
}

#[test]
fn times_in_any_order_are_counted_in_their_slots() {
    let mut brutal = Brutal::new(make_config(100), 1200);
    ack(&mut brutal, 0);
    for _ in 0..60 {
        lose(&mut brutal, 7_000);
    }
    // Back at second 3 the losses of second 7 are in another slot, and still count.
    ack(&mut brutal, 3_000);
    assert_eq!(value(brutal.ack_rate()), 0.8);
    // At second 2 the slot of second 7 is the present one and begins anew.
    ack(&mut brutal, 2_000);
    assert_eq!(value(brutal.ack_rate()), 1.0);
    ack(&mut brutal, 3_000);
    assert_eq!(value(brutal.ack_rate()), 1.0);
}

/// The window and the pace in native floating point.
fn native(target_bps: u64, secs: u64, nanos: u32, rate: f64, mtu: u64) -> (u64, u64) {
    let rtt = std::time::Duration::new(secs, nanos).as_secs_f64();
    let cwnd = (target_bps as f64 * rtt * 2.0 / rate) as u64;
    let pace = (target_bps as f64 / rate * 8.0) as u64;
    (cwnd.max(4 * mtu), pace)
}

#[test]
fn window_and_pace_agree_with_native_arithmetic() {
    let mut seed: u64 = 42;
    let mut next = || {
        seed = seed.wrapping_mul(6364136223846793005).wrapping_add(1442695040888963407);
        seed >> 11
    };
    for _ in 0..3_000 {
        let mut config = BrutalConfig::new(0);
        let target_bps = next() << (next() % 12) >> (next() % 50);
        let floor = f64::from_bits(next() << 11).abs();
        config.target_bps(target_bps).min_ack_rate(number(floor));
        let floor = floor.clamp(0.1, 1.0);
        let mut brutal = Brutal::new(Arc::new(config), 1200);
        let acks = next() % 100;
        let losses = 50 + next() % 100;
        sample(&mut brutal, 0, acks, losses);
        let secs = next() >> (next() % 64);
        let nanos = (next() % 999_999_999 + 1) as u32;
        let now = at_millis(1000);
        brutal.on_ack(now, now, 1, false, Duration::new(secs, nanos));
        let rate = (acks as f64 / (acks + losses) as f64).max(floor);
        assert_eq!(brutal.ack_rate().bits, rate.to_bits());
        let (cwnd, pace) = native(target_bps, secs, nanos, rate, 1200);
        assert_eq!(brutal.window(), cwnd);
        assert_eq!(brutal.pacing_rate(), pace);
    }
}

#[test]
fn sample_holds_the_last_four_seconds() {
    let mut seed: u64 = 7;
    let mut next = || {
        seed = seed.wrapping_mul(6364136223846793005).wrapping_add(1442695040888963407);
        seed >> 33
    };
    let mut config = BrutalConfig::new(100);
    config.min_ack_rate(number(0.1));
    let mut brutal = Brutal::new(Arc::new(config), 1200);
    let mut events: Vec<(u64, bool)> = vec![];
    let mut now: u64 = 12_345;
    for _ in 0..4_000 {
        now += next() % 60;
        if next() % 200 == 0 {
            now += next() % 8_000;
        }
        let acked = next() % 3 > 0;
        events.push((now, acked));
        if acked {
            ack(&mut brutal, now);
        } else {
            lose(&mut brutal, now);
        }
        let second = |millis: u64| (millis - events[0].0) / 1000;
        let present = second(now);
        let mut acks: u64 = 0;
        let mut total: u64 = 0;
        for (then, acked) in events.iter().rev() {
            if second(*then) + 4 < present {
                break;
            }
            if second(*then) < present {
                total += 1;
                if *acked {
                    acks += 1;
                }
            }
        }
        let rate = if total < 50 {
            1.0
        } else {
            (acks as f64 / total as f64).max(0.1)
        };
        assert_eq!(value(brutal.ack_rate()), rate);
    }
}
