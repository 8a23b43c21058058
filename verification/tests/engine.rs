use geiger::bootstrap::{percentile, ConfidenceIntervalConfig};
use geiger::bucket::VolumeBucketer;
use geiger::bvc::{buy_fraction, classify, standard_normal_cdf};
use geiger::double::{sort_total, Double, Op};
use geiger::error::VpinError;
use geiger::intensity::{median_u32, IntensityAdjustedCdf};
use geiger::numeral::Digits;
use geiger::repr::reading_repr;
use geiger::rng::SplitMix64;
use geiger::vpin::{EmpiricalCdf, RollingSigma, VpinEngine, VpinEngineConfig, VpinReading};

fn d(x: f64) -> Double {
    Double { bits: x.to_bits() }
}

fn f(x: Double) -> f64 {
    f64::from_bits(x.bits)
}

fn unit(op: Op) -> Double {
    d(match op {
        Op::Add(x, y) => f(x) + f(y),
        Op::Sub(x, y) => f(x) - f(y),
        Op::Mul(x, y) => f(x) * f(y),
        Op::Div(x, y) => f(x) / f(y),
        Op::Sqrt(x) => f(x).sqrt(),
        Op::Erf(x) => libm::erf(f(x)),
        Op::Of(n) => n as f64,
    })
}

fn show(x: Double, digits: Digits) -> String {
    match digits {
        Digits::Shortest => format!("{}", f(x)),
        Digits::Fixed(n) => format!("{:.*}", n as usize, f(x)),
    }
}

fn config(
    sigma_window: usize,
    vpin_window: usize,
    cdf_window: Option<usize>,
    confidence_interval: Option<ConfidenceIntervalConfig>,
) -> VpinEngineConfig {
    VpinEngineConfig {
        bucket_volume: d(10.0),
        sigma_window,
        vpin_window,
        cdf_window,
        confidence_interval,
    }
}

fn interval(level: f64, bootstrap_samples: usize, seed: u64) -> Option<ConfidenceIntervalConfig> {
    Some(ConfidenceIntervalConfig { confidence_level: d(level), bootstrap_samples, seed })
}

fn engine(cfg: VpinEngineConfig) -> VpinEngine {
    match VpinEngine::new(cfg) {
        Ok(e) => e,
        Err(e) => panic!("{e:?}"),
    }
}

fn push(e: &mut VpinEngine, price: f64, volume: f64, ts_ns: u64) -> Option<VpinReading> {
    e.push_trade(&unit, d(price), d(volume), ts_ns)
}

// Buckets

fn bucketer(target: f64) -> VolumeBucketer {
    match VolumeBucketer::new(d(target)) {
        Ok(b) => b,
        Err(e) => panic!("{e:?}"),
    }
}

#[test]
fn rejects_nonpositive_target_volume() {
    for bad in [0.0, -1.0, f64::NAN, f64::INFINITY] {
        assert!(VolumeBucketer::new(d(bad)).is_err());
    }
    assert!(matches!(
        VolumeBucketer::new(d(-1.0)),
        Err(VpinError::InvalidBucketVolume(v)) if v == d(-1.0)
    ));
}

#[test]
fn closes_exactly_at_target_volume() {
    let mut b = bucketer(100.0);
    assert!(b.push(&unit, d(50.0), d(60.0), 1).is_none());
    let closed = b.push(&unit, d(51.0), d(40.0), 2).expect("should close at exactly 100");
    assert_eq!(f(closed.volume), 100.0);
    assert_eq!(closed.trade_count, 2);
    assert_eq!(closed.bucket_id, 0);
    assert_eq!(closed.ts_close_ns, 2);
}

#[test]
fn overshoot_closes_the_bucket_it_tips_over_not_the_next_one() {
    let mut b = bucketer(100.0);
    assert!(b.push(&unit, d(50.0), d(90.0), 1).is_none());
    let closed = b.push(&unit, d(51.0), d(500.0), 2).expect("should close, overshooting");
    assert_eq!(f(closed.volume), 590.0);
    assert_eq!(f(b.partial_volume()), 0.0);
}

#[test]
fn first_bucket_has_zero_delta_p_seed() {
    let mut b = bucketer(10.0);
    let closed = b.push(&unit, d(100.0), d(10.0), 1).unwrap();
    assert_eq!(f(closed.delta_p), 0.0);
}

#[test]
fn delta_p_is_close_to_close_not_open_to_close() {
    let mut b = bucketer(10.0);
    let first = b.push(&unit, d(100.0), d(10.0), 1).unwrap();
    assert_eq!(f(first.last_price), 100.0);
    b.push(&unit, d(105.0), d(4.0), 2);
    let second = b.push(&unit, d(110.0), d(6.0), 3).unwrap();
    assert_eq!(f(second.delta_p), 10.0);
}

#[test]
fn bucket_id_increments_monotonically() {
    let mut b = bucketer(10.0);
    for i in 0..5u64 {
        let closed = b.push(&unit, d(100.0 + i as f64), d(10.0), i).unwrap();
        assert_eq!(closed.bucket_id, i);
    }
    assert_eq!(b.current_bucket_id(), 5);
    assert!(b.has_room());
}

// Classification

#[test]
fn zero_delta_p_splits_evenly() {
    let (buy, sell) = classify(&unit, d(0.0), d(1.0), d(100.0)).unwrap();
    assert!((f(buy) - 50.0).abs() < 1e-9);
    assert!((f(sell) - 50.0).abs() < 1e-9);
}

#[test]
fn large_positive_delta_p_goes_almost_entirely_to_buy() {
    let frac = buy_fraction(&unit, d(10.0), d(1.0)).unwrap();
    assert!(f(frac) > 0.999_999);
}

#[test]
fn large_negative_delta_p_goes_almost_entirely_to_sell() {
    let frac = buy_fraction(&unit, d(-10.0), d(1.0)).unwrap();
    assert!(f(frac) < 0.000_001);
}

#[test]
fn buy_and_sell_always_sum_to_total_volume() {
    for delta_p in [-5.0, -1.0, -0.01, 0.0, 0.01, 1.0, 5.0] {
        for sigma in [0.001, 0.5, 1.0, 3.7] {
            let (buy, sell) = classify(&unit, d(delta_p), d(sigma), d(1234.5)).unwrap();
            assert!(
                (f(buy) + f(sell) - 1234.5).abs() < 1e-6,
                "delta_p={delta_p} sigma={sigma}"
            );
        }
    }
}

#[test]
fn rejects_nonpositive_or_nonfinite_sigma() {
    for sigma in [0.0, -1.0, f64::NAN, f64::INFINITY] {
        assert!(buy_fraction(&unit, d(1.0), d(sigma)).is_none());
        assert!(classify(&unit, d(1.0), d(sigma), d(1.0)).is_none());
    }
}

#[test]
fn rejects_nonfinite_delta_p() {
    assert!(buy_fraction(&unit, d(f64::NAN), d(1.0)).is_none());
    assert!(buy_fraction(&unit, d(f64::INFINITY), d(1.0)).is_none());
}

#[test]
fn cdf_matches_known_values() {
    let cdf = |x: f64| f(standard_normal_cdf(&unit, d(x)));
    assert!((cdf(0.0) - 0.5).abs() < 1e-9);
    assert!((cdf(1.0) - 0.8413447460685429).abs() < 1e-9);
    assert!((cdf(-1.0) - 0.15865525393145707).abs() < 1e-9);
    assert!((cdf(1.96) - 0.9750021048517796).abs() < 1e-8);
}

// Rank among similarly busy buckets

fn adjusted(window: usize) -> IntensityAdjustedCdf {
    match IntensityAdjustedCdf::new(window) {
        Ok(c) => c,
        Err(e) => panic!("{e:?}"),
    }
}

fn adjust(c: &mut IntensityAdjustedCdf, vpin: f64, trades: u32) -> Option<f64> {
    c.push(&unit, d(vpin), trades).map(f)
}

#[test]
fn rejects_window_below_four() {
    assert!(IntensityAdjustedCdf::new(3).is_err());
    assert!(matches!(
        IntensityAdjustedCdf::new(0),
        Err(VpinError::InvalidWindow { got: 0, min: 4 })
    ));
}

#[test]
fn none_until_window_full() {
    let mut c = adjusted(4);
    assert!(adjust(&mut c, 0.5, 10).is_none());
    assert!(adjust(&mut c, 0.5, 10).is_none());
    assert!(adjust(&mut c, 0.5, 10).is_none());
    assert!(adjust(&mut c, 0.5, 10).is_some());
}

#[test]
fn high_vpin_during_busy_period_ranks_unremarkable_within_cohort() {
    let mut c = adjusted(40);
    for i in 0..39u32 {
        let (vpin, trades) = if i % 2 == 0 {
            (0.3 + (i as f64 % 5.0) * 0.01, 5)
        } else {
            (0.9 + (i as f64 % 5.0) * 0.01, 200)
        };
        assert!(adjust(&mut c, vpin, trades).is_none(), "window shouldn't be full yet");
    }
    let rank = adjust(&mut c, 0.92, 200).unwrap();
    assert!(rank > 0.1 && rank < 0.9, "expected a mid-range rank within the busy cohort, got {rank}");
}

#[test]
fn quiet_and_busy_cohorts_are_scored_independently() {
    let mut quiet_low = adjusted(10);
    let mut busy_high = adjusted(10);
    for i in 0..9u32 {
        adjust(&mut quiet_low, 0.2 + (i as f64) * 0.01, 5);
        adjust(&mut busy_high, 0.8 + (i as f64) * 0.01, 200);
    }
    let rank_in_quiet = adjust(&mut quiet_low, 0.5, 5).unwrap();
    let rank_in_busy = adjust(&mut busy_high, 0.5, 200).unwrap();
    assert!(rank_in_quiet > 0.8, "got {rank_in_quiet}");
    assert!(rank_in_busy < 0.2, "got {rank_in_busy}");
}

#[test]
fn median_boundary_with_only_two_distinct_intensities_still_splits_correctly() {
    let mut c = adjusted(40);
    for i in 0..39u32 {
        let (vpin, trades) =
            if i % 2 == 0 { (0.3, 5) } else { (0.9 + (i as f64 % 5.0) * 0.01, 200) };
        adjust(&mut c, vpin, trades);
    }
    let rank = adjust(&mut c, 0.92, 200).unwrap();
    assert!(rank > 0.05 && rank < 0.95, "got rank {rank}");
}

#[test]
fn rank_stays_in_unit_interval() {
    let mut c = adjusted(20);
    let mut state: u64 = 7;
    for _ in 0..500 {
        state = state.wrapping_mul(6364136223846793005).wrapping_add(1);
        let vpin = ((state >> 40) as f64 / (1u64 << 24) as f64).min(1.0);
        let trades = ((state >> 20) & 0xff) as u32;
        if let Some(rank) = adjust(&mut c, vpin, trades) {
            assert!((0.0..=1.0).contains(&rank), "rank out of bounds: {rank}");
        }
    }
}

#[test]
fn median_of_an_even_count_is_the_upper_middle() {
    assert_eq!(median_u32(&vec![4, 1, 3, 2]), 3);
    assert_eq!(median_u32(&vec![9]), 9);
    assert_eq!(median_u32(&vec![5, 5, 1]), 5);
}

// Deviation and rank

#[test]
fn rolling_sigma_none_until_window_full() {
    let mut s = RollingSigma::new(5).ok().unwrap();
    for i in 0..4 {
        assert!(s.push(&unit, d(i as f64)).is_none());
        assert!(s.current().is_none());
    }
    assert!(s.push(&unit, d(4.0)).is_some());
    assert!(s.current().is_some());
}

#[test]
fn rolling_sigma_matches_known_sample_std() {
    let mut s = RollingSigma::new(8).ok().unwrap();
    let mut last = None;
    for x in [2.0, 4.0, 4.0, 4.0, 5.0, 5.0, 7.0, 9.0] {
        last = s.push(&unit, d(x));
    }
    assert!((f(last.unwrap()) - 2.138_089_935_299_395).abs() < 1e-9);
}

#[test]
fn rejects_window_below_two() {
    assert!(RollingSigma::new(1).is_err());
    assert!(RollingSigma::new(0).is_err());
    assert!(EmpiricalCdf::new(1).is_err());
}

#[test]
fn empirical_cdf_rank_of_max_is_one() {
    let mut c = EmpiricalCdf::new(4).ok().unwrap();
    c.push(&unit, d(1.0));
    c.push(&unit, d(2.0));
    c.push(&unit, d(3.0));
    let rank = c.push(&unit, d(4.0)).unwrap();
    assert!((f(rank) - 1.0).abs() < 1e-9);
}

#[test]
fn empirical_cdf_rank_of_min_is_one_over_window() {
    let mut c = EmpiricalCdf::new(4).ok().unwrap();
    c.push(&unit, d(4.0));
    c.push(&unit, d(3.0));
    c.push(&unit, d(2.0));
    let rank = c.push(&unit, d(1.0)).unwrap();
    assert!((f(rank) - 0.25).abs() < 1e-9);
}

// Engine

#[test]
fn vpin_engine_none_during_warmup_then_produces_readings() {
    let mut e = engine(config(3, 3, None, None));
    let mut saw_a_value = false;
    let mut price = 100.0;
    for i in 0..200u64 {
        price += if i % 2 == 0 { 0.5 } else { -0.3 };
        if let Some(reading) = push(&mut e, price, 10.0, i) {
            if let Some(v) = reading.vpin {
                saw_a_value = true;
                assert!((0.0..=1.0).contains(&f(v)), "VPIN out of [0,1]: {}", f(v));
            }
        }
    }
    assert!(saw_a_value, "expected at least one non-warmup VPIN reading over 200 trades");
}

#[test]
fn vpin_reading_always_in_unit_interval() {
    for round in 0..40u64 {
        let mut rng = SplitMix64::new(round);
        let mut cfg = config(10, 10, Some(20), interval(0.95, 200, 1));
        cfg.bucket_volume = d(50.0);
        let mut e = engine(cfg);
        for i in 0..300u64 {
            let p = 1.0 + (rng.next_u64() >> 11) as f64 / (1u64 << 53) as f64 * 999_999.0;
            let v = 0.001 + (rng.next_u64() >> 11) as f64 / (1u64 << 53) as f64 * 499.999;
            let Some(reading) = push(&mut e, p, v, i) else { continue };
            match reading.vpin {
                Some(vpin) => {
                    assert!((0.0..=1.0).contains(&f(vpin)));
                    let low = f(reading.vpin_ci_low.expect("ci enabled, vpin present"));
                    let high = f(reading.vpin_ci_high.expect("ci enabled, vpin present"));
                    assert!((0.0..=1.0).contains(&low), "low={low}");
                    assert!((0.0..=1.0).contains(&high), "high={high}");
                    assert!(low <= high, "low={low} > high={high}");
                }
                None => {
                    assert!(reading.vpin_ci_low.is_none());
                    assert!(reading.vpin_ci_high.is_none());
                }
            }
            if let Some(cdf) = reading.vpin_cdf {
                assert!((0.0..=1.0).contains(&f(cdf)));
            }
        }
    }
}

#[test]
fn vpin_engine_rejects_zero_vpin_window() {
    assert!(VpinEngine::new(config(3, 0, None, None)).is_err());
}

#[test]
fn every_bad_configuration_has_its_own_error() {
    let mut bad_volume = config(3, 3, None, None);
    bad_volume.bucket_volume = d(0.0);
    assert!(matches!(VpinEngine::new(bad_volume), Err(VpinError::InvalidBucketVolume(_))));
    assert!(matches!(
        VpinEngine::new(config(1, 3, None, None)),
        Err(VpinError::InvalidWindow { got: 1, min: 2 })
    ));
    assert!(matches!(
        VpinEngine::new(config(3, 3, Some(1), None)),
        Err(VpinError::InvalidWindow { got: 1, min: 2 })
    ));
    assert!(matches!(
        VpinEngine::new(config(3, 3, None, interval(2.0, 10, 1))),
        Err(VpinError::InvalidConfidenceLevel(_))
    ));
    assert!(matches!(
        VpinEngine::new(config(3, 3, None, interval(0.5, 1, 1))),
        Err(VpinError::InvalidBootstrapSamples { got: 1, min: 2 })
    ));
}

#[test]
fn errors_read_as_sentences() {
    assert_eq!(
        VpinError::InvalidBucketVolume(d(-1.5)).message(&show),
        "bucket target volume must be finite and positive, got -1.5"
    );
    assert_eq!(
        VpinError::InvalidWindow { got: 0, min: 2 }.message(&show),
        "window size must be at least 2, got 0"
    );
    assert_eq!(
        VpinError::InvalidConfidenceLevel(d(1.0)).message(&show),
        "confidence level must be strictly between 0 and 1, got 1"
    );
    assert_eq!(
        VpinError::InvalidBootstrapSamples { got: 1, min: 2 }.message(&show),
        "bootstrap samples must be at least 2, got 1"
    );
}

// Numbers for the bootstrap

#[test]
fn splitmix64_is_deterministic_given_the_same_seed() {
    let mut a = SplitMix64::new(42);
    let mut b = SplitMix64::new(42);
    for _ in 0..100 {
        assert_eq!(a.next_u64(), b.next_u64());
    }
}

#[test]
fn splitmix64_different_seeds_diverge() {
    let mut a = SplitMix64::new(1);
    let mut b = SplitMix64::new(2);
    let seq_a: Vec<u64> = (0..20).map(|_| a.next_u64()).collect();
    let seq_b: Vec<u64> = (0..20).map(|_| b.next_u64()).collect();
    assert_ne!(seq_a, seq_b);
    assert!(seq_a.iter().zip(seq_b.iter()).all(|(x, y)| x != y));
}

#[test]
fn splitmix64_draws_its_published_numbers() {
    let mut a = SplitMix64::new(0);
    assert_eq!(a.next_u64(), 0xE220_A839_7B1D_CDAF);
    assert_eq!(a.next_u64(), 0x6E78_9E6A_A1B9_65F4);
    assert!(a.next_index(7) < 7);
}

#[test]
fn percentile_matches_hand_computed_values() {
    let data: Vec<Double> = [1.0, 2.0, 3.0, 4.0, 5.0].iter().map(|x| d(*x)).collect();
    let at = |p: f64| f(percentile(&unit, &data, d(p)));
    assert!((at(0.0) - 1.0).abs() < 1e-12);
    assert!((at(1.0) - 5.0).abs() < 1e-12);
    assert!((at(0.5) - 3.0).abs() < 1e-12);
    assert!((at(0.25) - 2.0).abs() < 1e-12);
    assert!((at(0.1) - 1.4).abs() < 1e-9);
}

#[test]
fn percentile_of_single_value_is_that_value() {
    let one = vec![d(7.0)];
    for p in [0.0, 0.5, 1.0] {
        assert_eq!(f(percentile(&unit, &one, d(p))), 7.0);
    }
}

#[test]
fn rejects_confidence_level_outside_open_unit_interval() {
    for bad_level in [0.0, 1.0, -0.5, 1.5, f64::NAN] {
        assert!(
            VpinEngine::new(config(3, 3, None, interval(bad_level, 100, 1))).is_err(),
            "expected confidence_level={bad_level} to be rejected"
        );
    }
}

#[test]
fn rejects_too_few_bootstrap_samples() {
    for bad_n in [0, 1] {
        assert!(
            VpinEngine::new(config(3, 3, None, interval(0.95, bad_n, 1))).is_err(),
            "expected bootstrap_samples={bad_n} to be rejected"
        );
    }
}

#[test]
fn ci_fields_stay_none_when_not_configured() {
    let mut e = engine(config(3, 3, None, None));
    let mut price = 100.0;
    let mut saw_a_vpin = false;
    for i in 0..100u64 {
        price += if i % 2 == 0 { 0.5 } else { -0.3 };
        if let Some(reading) = push(&mut e, price, 10.0, i) {
            assert!(reading.vpin_ci_low.is_none());
            assert!(reading.vpin_ci_high.is_none());
            saw_a_vpin |= reading.vpin.is_some();
        }
    }
    assert!(saw_a_vpin, "test needs at least one non-warmup reading to be meaningful");
}

#[test]
fn ci_fields_track_vpin_warmup_exactly_when_configured() {
    let mut e = engine(config(3, 3, None, interval(0.95, 100, 3)));
    let mut price = 100.0;
    let mut saw_both_some = false;
    for i in 0..100u64 {
        price += if i % 2 == 0 { 0.5 } else { -0.3 };
        if let Some(reading) = push(&mut e, price, 10.0, i) {
            assert_eq!(reading.vpin.is_some(), reading.vpin_ci_low.is_some());
            assert_eq!(reading.vpin.is_some(), reading.vpin_ci_high.is_some());
            saw_both_some |= reading.vpin.is_some();
        }
    }
    assert!(saw_both_some);
}

fn bounds_of_a_run() -> Vec<(f64, f64)> {
    let mut e = engine(config(3, 5, None, interval(0.95, 300, 99)));
    let mut out = Vec::new();
    let mut price = 100.0;
    for i in 0..150u64 {
        price += if i % 3 == 0 { 0.8 } else { -0.5 };
        if let Some(reading) = push(&mut e, price, 10.0, i) {
            if let (Some(low), Some(high)) = (reading.vpin_ci_low, reading.vpin_ci_high) {
                out.push((f(low), f(high)));
            }
        }
    }
    out
}

#[test]
fn same_seed_gives_bit_identical_ci_bounds_across_runs() {
    let first = bounds_of_a_run();
    assert!(!first.is_empty(), "test needs at least one CI reading");
    assert_eq!(first, bounds_of_a_run());
}

fn last_ci(level: f64) -> (f64, f64) {
    let mut e = engine(config(3, 5, None, interval(level, 500, 7)));
    let mut last = None;
    let mut price = 100.0;
    for i in 0..100u64 {
        price += if i % 2 == 0 { 0.6 } else { -0.4 };
        if let Some(reading) = push(&mut e, price, 10.0, i) {
            if let (Some(low), Some(high)) = (reading.vpin_ci_low, reading.vpin_ci_high) {
                last = Some((f(low), f(high)));
            }
        }
    }
    last.expect("expected at least one non-warmup reading")
}

#[test]
fn higher_confidence_level_gives_a_wider_or_equal_interval() {
    let (low_80, high_80) = last_ci(0.80);
    let (low_99, high_99) = last_ci(0.99);
    assert!(
        (high_99 - low_99) >= (high_80 - low_80) - 1e-12,
        "99% CI [{low_99}, {high_99}] should be at least as wide as 80% CI [{low_80}, {high_80}]"
    );
}

// Readings in Python

#[test]
fn construct_and_push_trade_via_pymethods() {
    let mut e = engine(config(5, 5, None, None));
    let mut saw_reading = false;
    let mut price = 100.0;
    for i in 0..300u64 {
        price += if i % 2 == 0 { 0.5 } else { -0.3 };
        if let Some(reading) = push(&mut e, price, 10.0, i) {
            saw_reading = true;
            assert!(reading.trades_in_bucket > 0);
            if let Some(v) = reading.vpin {
                assert!((0.0..=1.0).contains(&f(v)));
            }
        }
    }
    assert!(saw_reading);
}

#[test]
fn invalid_config_becomes_value_error_not_a_panic() {
    let mut cfg = config(5, 5, None, None);
    cfg.bucket_volume = d(-1.0);
    assert!(VpinEngine::new(cfg).is_err());
}

fn reading(bucket_id: u64, vpin: Option<f64>, vpin_cdf: Option<f64>) -> VpinReading {
    VpinReading {
        bucket_id,
        ts_close_ns: 0,
        trades_in_bucket: 3,
        vpin: vpin.map(d),
        vpin_cdf: vpin_cdf.map(d),
        vpin_ci_low: None,
        vpin_ci_high: None,
    }
}

#[test]
fn repr_handles_none_fields_without_panicking() {
    assert_eq!(
        reading_repr(&show, &reading(0, None, None)),
        "VpinReading(bucket_id=0, trades_in_bucket=3, vpin=None, vpin_cdf=None)"
    );
}

#[test]
fn repr_formats_some_values_as_numbers_not_debug_syntax() {
    assert_eq!(
        reading_repr(&show, &reading(1, Some(0.42), Some(0.9))),
        "VpinReading(bucket_id=1, trades_in_bucket=3, vpin=0.42, vpin_cdf=0.9)"
    );
}

// Doubles by their bits

#[test]
fn doubles_compare_as_numbers_do() {
    let xs = [
        f64::NEG_INFINITY,
        -2.5,
        -1.0,
        -f64::MIN_POSITIVE,
        -0.0,
        0.0,
        5e-324,
        0.5,
        1.0,
        1.5,
        1e300,
        f64::INFINITY,
        f64::NAN,
        -f64::NAN,
    ];
    for x in xs {
        assert_eq!(d(x).is_nan(), x.is_nan());
        assert_eq!(d(x).is_finite(), x.is_finite());
        assert_eq!(d(x).is_positive(), x > 0.0);
        assert_eq!(d(x).abs().bits, x.abs().to_bits());
        for y in xs {
            assert_eq!(d(x).le(d(y)), x <= y);
            assert_eq!(d(x).lt(d(y)), x < y);
            assert_eq!(d(x).same(d(y)), x == y);
            if !x.is_nan() || !y.is_nan() {
                assert_eq!(f(d(x).min(d(y))), x.min(y));
                assert_eq!(f(d(x).max(d(y))), x.max(y));
            }
        }
    }
}

#[test]
fn doubles_truncate_as_casts_do() {
    let mut xs = vec![
        0.0,
        -1.5,
        0.999,
        1.0,
        1.999_999,
        123_456.789,
        9_007_199_254_740_993.0,
        4.5e15,
        1.8e19,
        1e20,
        f64::INFINITY,
        f64::NAN,
        5e-324,
    ];
    let mut rng = SplitMix64::new(3);
    for _ in 0..2000 {
        xs.push(f64::from_bits(rng.next_u64() >> 1));
        xs.push((rng.next_u64() >> (rng.next_index(60))) as f64 / 7.0);
    }
    for x in xs {
        assert_eq!(d(x).truncate(), x as u64, "{x}");
    }
}

#[test]
fn doubles_sort_in_total_order() {
    let xs = [3.0, -0.0, f64::NAN, 0.0, -1.0, f64::INFINITY, -f64::NAN, 2.0];
    let mut wanted = xs.to_vec();
    wanted.sort_by(f64::total_cmp);
    let sorted = sort_total(&xs.iter().map(|x| d(*x)).collect());
    let got: Vec<u64> = sorted.iter().map(|x| x.bits).collect();
    assert_eq!(got, wanted.iter().map(|x| x.to_bits()).collect::<Vec<u64>>());
}
