use matchmaker::clock::{stamp_from_reading, stamp_now, Clock};
use matchmaker::config::Config;
use matchmaker::fixed::{clamp_to_i64, div_towards_zero, Ratio, MMR_POINT};
use matchmaker::match_id::{match_id, new_match_id, next_match_id};
use matchmaker::metrics::Metrics;

#[test]
fn metrics_start_at_zero() {
    let s = Metrics::new().snapshot();
    assert_eq!((s.matches_formed, s.players_matched, s.cycle_count), (0, 0, 0));
    assert_eq!((s.avg_wait_ms.num, s.avg_wait_ms.den), (0, 1_000));
    assert_eq!((s.avg_quality.num, s.avg_quality.den), (10_000, 10_000));
    assert_eq!((s.avg_cycle_us.num, s.avg_cycle_us.den), (0, 100));
}

#[test]
fn a_match_is_counted_and_averaged() {
    let mut m = Metrics::new();
    // Half quality, two seconds of waiting.
    m.record_match(Ratio { num: 1, den: 2 }, 2_000_000_000);
    assert_eq!((m.matches_formed, m.players_matched), (1, 10));
    assert_eq!(m.ema_wait_ms_x1000, 200_000);
    assert_eq!(m.ema_quality_x10000, 9_500);
    m.record_match(Ratio { num: 1, den: 3 }, 0);
    assert_eq!((m.matches_formed, m.players_matched), (2, 20));
    assert_eq!(m.ema_wait_ms_x1000, 180_000);
    // 0.9 * 9500 + 0.1 * 3333 = 8883.3
    assert_eq!(m.ema_quality_x10000, 8_883);
    assert_eq!(m.cycle_count, 0);
}

#[test]
fn a_cycle_is_counted_and_averaged() {
    let mut m = Metrics::new();
    m.record_cycle(364);
    assert_eq!(m.cycle_count, 1);
    assert_eq!(m.ema_cycle_us_x100, 1_820);
    m.record_cycle(0);
    assert_eq!(m.cycle_count, 2);
    assert_eq!(m.ema_cycle_us_x100, 1_729);
    assert_eq!(m.matches_formed, 0);
}

#[test]
fn counters_start_again_when_they_run_over() {
    let mut m = Metrics::new();
    m.matches_formed = u64::MAX;
    m.players_matched = u64::MAX - 9;
    m.record_match(Ratio { num: 1, den: 1 }, 0);
    assert_eq!((m.matches_formed, m.players_matched), (0, 0));
    m.cycle_count = u64::MAX;
    m.record_cycle(1);
    assert_eq!(m.cycle_count, 0);
}

#[test]
fn durations_are_read_as_signed() {
    let mut m = Metrics::new();
    m.record_cycle(u64::MAX / 100);
    // u64::MAX / 100 * 100 is fifteen short of u64::MAX, so the value is -16.
    assert_eq!(m.ema_cycle_us_x100, 0);
    m.record_cycle(0x7fff_ffff_ffff_ffff / 100);
    assert_eq!(m.ema_cycle_us_x100, 461_168_601_842_738_790);
}

#[test]
fn averages_stay_between_old_and_new() {
    let mut m = Metrics::new();
    for _ in 0..200 {
        m.record_match(Ratio { num: 0, den: 1 }, 1_000_000_000);
        assert!(0 <= m.ema_quality_x10000 && m.ema_quality_x10000 <= 10_000);
        assert!(0 <= m.ema_wait_ms_x1000 && m.ema_wait_ms_x1000 <= 1_000_000);
    }
    assert_eq!(m.ema_quality_x10000, 0);
    assert_eq!(m.players_matched, 10 * m.matches_formed);
}

#[test]
fn division_drops_the_fraction() {
    assert_eq!(div_towards_zero(7, 2), 3);
    assert_eq!(div_towards_zero(-7, 2), -3);
    assert_eq!(div_towards_zero(0, 9), 0);
    assert_eq!(clamp_to_i64(i128::MAX), i64::MAX);
    assert_eq!(clamp_to_i64(-i128::MAX), i64::MIN);
    assert_eq!(clamp_to_i64(-5), -5);
}

#[test]
fn settings_have_defaults() {
    let c = Config::default();
    assert_eq!(c.num_workers, 4);
    assert_eq!(c.idle_sleep_ms, 50);
    assert_eq!(c.base_mmr_range, 150 * MMR_POINT);
    assert_eq!(c.relaxation_rate_per_sec, 25 * MMR_POINT);
    assert_eq!(c.max_mmr_range, 600 * MMR_POINT);
    assert_eq!(c.port, 3000);
}

#[test]
fn double_precision_ratings_are_whole_numbers_of_units() {
    assert_eq!(MMR_POINT, 1 << 49);
    for points in [8.0f64, 8.1, 1500.1, 1500.1234567, 1500.12345678, 9999.999999, 10_000.0] {
        let next = f64::from_bits(points.to_bits() + 1);
        for p in [points, next] {
            let units = p * MMR_POINT as f64;
            assert_eq!(units.fract(), 0.0);
            assert_eq!(units as i64 as f64 / MMR_POINT as f64, p);
        }
        assert!((points * MMR_POINT as f64) as i64 != (next * MMR_POINT as f64) as i64);
    }
}

#[test]
fn ids_hold_time_and_number() {
    assert_eq!(match_id(0x0001_a2b3_c4d5_e6f7, 1), "match-0001a2b3c4d5e6f7-00000001");
    assert_eq!(match_id(0, 0), "match-0000000000000000-00000000");
    assert_eq!(match_id(u64::MAX as u128, 0xffff_ffff), "match-ffffffffffffffff-ffffffff");
    assert_eq!(match_id(1 << 64, 1 << 32), "match-10000000000000000-100000000");
    for (micros, seq) in [(1_700_000_000_000_000u128, 17u64), (9, u64::MAX), (u128::MAX, 3)] {
        assert_eq!(match_id(micros, seq), format!("match-{:016x}-{:08x}", micros, seq));
    }
}

#[test]
fn ids_sort_by_time_then_number() {
    assert!(match_id(0xff, 9) < match_id(0x100, 1));
    assert!(match_id(0x9, 9) < match_id(0xa, 1));
    assert!(match_id(7, 9) < match_id(7, 10));
    assert_ne!(match_id(7, 9), match_id(8, 9));
}

#[test]
fn each_id_takes_a_number() {
    let mut next = 1;
    let first = new_match_id(&mut next);
    let second = new_match_id(&mut next);
    assert_eq!(next, 3);
    assert!(first.starts_with("match-") && first.ends_with("-00000001"));
    assert!(second.ends_with("-00000002"));
    assert_ne!(first, second);
    assert_eq!(next_match_id(&mut next, 0xabc), "match-0000000000000abc-00000003");
    assert_eq!(next, 4);
    next = u64::MAX;
    assert!(new_match_id(&mut next).ends_with("-ffffffffffffffff"));
    assert_eq!(next, 0);
}

#[test]
fn stamps_count_micros_and_millis() {
    let s = stamp_from_reading(Some(1_700_000_000_123_456_789));
    assert_eq!(s.micros, 1_700_000_000_123_456);
    assert_eq!(s.millis, 1_700_000_000_123);
    let far = stamp_from_reading(Some((1u128 << 64) * 1_000_000 + 999_999));
    assert_eq!(far.millis, 0);
    let early = stamp_from_reading(None);
    assert_eq!((early.micros, early.millis), (0, 0));
}

#[test]
fn the_clocks_run() {
    let clock = Clock::new();
    let a = clock.now();
    let b = clock.now();
    assert!(a <= b);
    assert!(b < 3_600_000_000_000);
    // After the year 2020.
    assert!(stamp_now().millis > 1_577_836_800_000);
}
