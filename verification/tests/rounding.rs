//! The laws about scores, ranks and bounds are stated for an arithmetic unit
//! that rounds to the nearest number. What they take such a unit to do is
//! tried here on the machine's own doubles.

use geiger::bootstrap::{bootstrap_ci, percentile, ratio_of, ConfidenceIntervalConfig};
use geiger::bvc::classify;
use geiger::calibrate::{bvc_accuracy_stats, calibrate_one, Trade};
use geiger::double::{Double, Op};
use geiger::intensity::{median_u32, IntensityAdjustedCdf};
use geiger::rng::SplitMix64;
use geiger::trade::TakerSide;
use geiger::vpin::{rank_of, RollingSigma, VpinEngine, VpinEngineConfig};
use geiger::window::RollingWindow;

fn d(x: f64) -> Double {
    Double { bits: x.to_bits() }
}

fn f(x: Double) -> f64 {
    f64::from_bits(x.bits)
}

fn unit(op: Op) -> Double {
    d(match op {
        Op::Add(x, y) => f(x) + f(y),
        Op::Sub(x, y) => f(x) - f(y),
        Op::Mul(x, y) => f(x) * f(y),
        Op::Div(x, y) => f(x) / f(y),
        Op::Sqrt(x) => f(x).sqrt(),
        Op::Erf(x) => libm::erf(f(x)),
        Op::Of(n) => n as f64,
    })
}

/// Numbers that are not negative, of all sizes.
fn samples() -> Vec<f64> {
    let mut xs = vec![
        0.0,
        5e-324,
        f64::MIN_POSITIVE,
        1e-300,
        1.0 - f64::EPSILON / 2.0,
        1.0,
        1.0 + f64::EPSILON,
        2.0,
        1e15,
        9_007_199_254_740_991.0,
        9_007_199_254_740_992.0,
        1e300,
        f64::MAX,
    ];
    let mut rng = SplitMix64::new(11);
    for _ in 0..60 {
        xs.push(f64::from_bits(rng.next_u64() % 0x7FF0_0000_0000_0000));
        xs.push((rng.next_u64() >> 11) as f64 / (1u64 << 53) as f64);
        xs.push((rng.next_u64() >> 11) as f64 / (1u64 << 43) as f64);
    }
    xs
}

fn in_unit(x: f64) -> bool {
    (0.0..=1.0).contains(&x)
}

#[test]
fn sums_and_differences_keep_their_order() {
    let xs = samples();
    for &x in &xs {
        for &y in &xs {
            let s = x + y;
            assert!(x <= s && y <= s);
            if y <= x {
                assert!((0.0..=x).contains(&(x - y)));
            }
            assert!((x - y).abs() <= x.max(y));
        }
        if x <= 1.0 {
            assert!((0.0..=2.0).contains(&(1.0 + x)));
            assert!((0.0..=2.0).contains(&(1.0 + -x)));
            assert!((1.0 - x) + x <= 1.0, "{x:e}");
        }
    }
    for &x in xs.iter().take(40) {
        for &y in xs.iter().take(40) {
            for &u in xs.iter().filter(|u| **u >= x).take(20) {
                for &v in xs.iter().filter(|v| **v >= y).take(20) {
                    assert!(x + y <= u + v);
                }
            }
        }
    }
}

#[test]
fn products_and_quotients_stay_in_range() {
    let xs = samples();
    for &x in &xs {
        for &y in &xs {
            if y <= 1.0 {
                assert!((0.0..=x).contains(&(x * y)));
            }
            if x <= y && y > 0.0 {
                assert!(in_unit(x / y));
            }
            if y > 0.0 {
                assert!(!(x / y).is_nan() && !(-x / y).is_nan());
            }
        }
        assert!(in_unit(x / f64::INFINITY));
        assert!(!(x * std::f64::consts::FRAC_1_SQRT_2).is_nan());
        if x > 0.0 {
            assert_eq!(x / x, 1.0);
        }
        if x <= 2.0 {
            assert!(in_unit(0.5 * x));
        }
    }
}

#[test]
fn the_error_function_is_odd_and_stays_within_one() {
    for x in samples() {
        assert!(in_unit(libm::erf(x)), "{x:e}");
        assert_eq!(libm::erf(-x), -libm::erf(x), "{x:e}");
    }
    assert_eq!(libm::erf(f64::INFINITY), 1.0);
    assert_eq!(libm::erf(f64::NEG_INFINITY), -1.0);
}

#[test]
fn square_roots_are_the_nearest_numbers() {
    // With odd and even exponents, where the root has a significand of 53 bits:
    // the doubled root, as an integer, against the middles around it.
    let mut rng = SplitMix64::new(77);
    for _ in 0..200 {
        let m = (rng.next_u64() >> 11) | (1 << 52);
        for shift in [52u32, 53] {
            let square = u128::from(m) << shift;
            let x = m as f64 * (1u64 << shift) as f64;
            let r = x.sqrt();
            let root = r as u128;
            assert_eq!(root as f64, r);
            assert!((2 * root - 1).pow(2) <= 4 * square && 4 * square <= (2 * root + 1).pow(2));
        }
    }
    assert_eq!(0.0f64.sqrt(), 0.0);
    assert_eq!(5e-324f64.sqrt(), 2.2227587494850775e-162);
}

#[test]
fn an_infinity_times_a_positive_number_stays_itself() {
    for x in samples() {
        if x > 0.0 {
            assert_eq!(f64::INFINITY * x, f64::INFINITY);
            assert_eq!(f64::NEG_INFINITY * x, f64::NEG_INFINITY);
        }
    }
}

#[test]
fn integers_convert_in_their_order() {
    let mut rng = SplitMix64::new(5);
    for _ in 0..5000 {
        let m = rng.next_u64() >> rng.next_index(64);
        let n = rng.next_u64() >> rng.next_index(64);
        assert_eq!(m as f64 <= n as f64 || m > n, true);
        if m <= 1 << 53 {
            assert_eq!(d(m as f64).truncate(), m);
        }
    }
    for x in samples() {
        if x < 1.8e19 {
            assert!(in_unit(x - d(x).truncate() as f64), "{x:e}");
        }
    }
}

#[test]
fn an_imbalance_never_exceeds_its_volume() {
    let mut rng = SplitMix64::new(8);
    for _ in 0..5000 {
        let delta = ((rng.next_u64() >> 11) as f64 / (1u64 << 50) as f64) - 4.0;
        let sigma = (rng.next_u64() >> 11) as f64 / (1u64 << 53) as f64 + 1e-9;
        let volume = (rng.next_u64() >> 11) as f64 / (1u64 << 43) as f64 + 1e-12;
        let (buy, sell) = classify(&unit, d(delta), d(sigma), d(volume)).unwrap();
        assert!((0.0..=volume).contains(&f(buy)));
        assert!((0.0..=volume).contains(&f(sell)));
        assert!((f(buy) - f(sell)).abs() <= volume);
    }
}

#[test]
fn ratios_and_intervals_of_fair_pairs_stay_in_the_unit_interval() {
    let mut rng = SplitMix64::new(21);
    for round in 0..50u64 {
        let mut pairs = Vec::new();
        for _ in 0..12 {
            let volume = (rng.next_u64() >> 11) as f64 / (1u64 << 47) as f64 + 0.001;
            let share = (rng.next_u64() >> 11) as f64 / (1u64 << 53) as f64;
            pairs.push((d(volume * share), d(volume)));
        }
        assert!(in_unit(f(ratio_of(&unit, &pairs))));
        let cfg = ConfidenceIntervalConfig {
            confidence_level: d(0.9),
            bootstrap_samples: 64,
            seed: round,
        };
        let mut a = SplitMix64::new(round);
        let mut b = SplitMix64::new(round);
        let (low, high) = bootstrap_ci(&unit, &pairs, &cfg, &mut a);
        assert!(in_unit(f(low)) && in_unit(f(high)) && f(low) <= f(high));
        let wider = ConfidenceIntervalConfig { confidence_level: d(0.99), ..cfg };
        let (wide_low, wide_high) = bootstrap_ci(&unit, &pairs, &wider, &mut b);
        assert!(f(wide_low) <= f(low) + 1e-12 && f(wide_high) >= f(high) - 1e-12);
        assert_eq!(a.next_u64(), b.next_u64());
    }
}

#[test]
fn ranks_stay_in_the_unit_interval() {
    let values: Vec<Double> = [0.4, 0.1, 0.9, 0.4].iter().map(|x| d(*x)).collect();
    assert_eq!(f(rank_of(&unit, &values, d(0.9))), 1.0);
    assert_eq!(f(rank_of(&unit, &values, d(0.4))), 0.75);
    assert_eq!(f(rank_of(&unit, &values, d(0.0))), 0.0);
}

#[test]
fn a_window_holds_the_last_values() {
    let mut w: RollingWindow<u32> = RollingWindow::new(3);
    assert_eq!(w.capacity(), 3);
    for i in 0..7u32 {
        w.push(i);
        assert_eq!(w.is_full(), i >= 2);
    }
    assert_eq!(w.to_vec(), vec![4, 5, 6]);
}

/// Two to the minus fifty.
fn slack() -> f64 {
    1.0 / (1u64 << 50) as f64
}

#[test]
fn an_interval_is_in_order_where_rounding_swaps_its_percentiles() {
    let same = vec![d(0.9820766375385342); 200];
    let tail = (1.0 - 0.95) / 2.0;
    let low = f(percentile(&unit, &same, d(tail)));
    let high = f(percentile(&unit, &same, d(1.0 - tail)));
    assert!(low > high);
    assert!(low <= high + slack());
    let cfg = ConfidenceIntervalConfig {
        confidence_level: d(0.95),
        bootstrap_samples: 200,
        seed: 1,
    };
    let pairs = vec![(same[0], d(1.0))];
    let bounds = bootstrap_ci(&unit, &pairs, &cfg, &mut SplitMix64::new(cfg.seed));
    assert_eq!((f(bounds.0), f(bounds.1)), (high, low));
}

#[test]
fn percentiles_keep_their_order_up_to_the_slack() {
    let mut rng = SplitMix64::new(3);
    for n in [1usize, 2, 3, 10, 57, 200] {
        let mut xs: Vec<f64> = (0..n).map(|_| (rng.next_u64() >> 11) as f64 / (1u64 << 53) as f64).collect();
        xs.sort_by(f64::total_cmp);
        let sorted: Vec<Double> = xs.iter().map(|x| d(*x)).collect();
        let mut before = 0.0;
        for k in 0..=1000u64 {
            let at = f(percentile(&unit, &sorted, d(k as f64 / 1000.0)));
            assert!(at >= before - slack());
            assert!(in_unit(at));
            before = at;
        }
    }
}

#[test]
fn a_higher_level_widens_an_interval_up_to_the_slack() {
    let pairs: Vec<(Double, Double)> = (1..12u32).map(|i| (d(f64::from(i) * 0.7), d(10.0))).collect();
    let at = |level: f64| {
        let cfg = ConfidenceIntervalConfig {
            confidence_level: d(level),
            bootstrap_samples: 300,
            seed: 5,
        };
        let (low, high) = bootstrap_ci(&unit, &pairs, &cfg, &mut SplitMix64::new(cfg.seed));
        (f(low), f(high))
    };
    let mut narrow = at(0.01);
    for level in [0.2, 0.5, 0.8, 0.95, 0.999] {
        let wide = at(level);
        assert!(wide.0 <= wide.1);
        assert!(wide.0 <= narrow.0 + slack());
        assert!(narrow.1 <= wide.1 + slack());
        narrow = wide;
    }
    assert!(narrow.1 - narrow.0 > 0.1);
}

#[test]
fn the_sides_of_a_bucket_add_up_to_its_volume() {
    for volume in [0.3, 1.0, 1234.5, 9.9e7, 1e300, f64::MAX] {
        for delta_p in [-2.5, -0.1, 0.0, 0.7, 3.0] {
            let (buy, sell) = classify(&unit, d(delta_p), d(0.9), d(volume)).unwrap();
            assert!((volume - f(buy) - f(sell)).abs() <= volume * f64::EPSILON);
        }
    }
}

#[test]
fn the_larger_side_follows_the_price() {
    for volume in samples() {
        // The smallest numbers of all cannot all be halved.
        if volume < 1e-300 {
            continue;
        }
        for delta_p in [1e-9, 0.1, 2.5, 1e5] {
            let (buy, sell) = classify(&unit, d(delta_p), d(0.9), d(volume)).unwrap();
            assert!(f(sell) < f(buy), "{volume:e} {delta_p}");
            let (buy, sell) = classify(&unit, d(-delta_p), d(0.9), d(volume)).unwrap();
            assert!(f(buy) < f(sell), "{volume:e} {delta_p}");
        }
        let (buy, sell) = classify(&unit, d(0.0), d(0.9), d(volume)).unwrap();
        assert_eq!(f(buy), f(sell));
    }
}

#[test]
fn an_even_split_of_one_quantum_falls_to_one_side() {
    let (buy, sell) = classify(&unit, d(0.0), d(0.9), d(5e-324)).unwrap();
    assert_eq!((f(buy), f(sell)), (0.0, 5e-324));
    let (buy, sell) = classify(&unit, d(1.0), d(0.9), d(5e-324)).unwrap();
    assert_eq!((f(buy), f(sell)), (5e-324, 0.0));
}

#[test]
fn opposite_changes_swap_the_sides() {
    for volume in [0.3, 1.0, 1234.5, 9.9e7, 1e300, f64::MAX] {
        for delta_p in [0.0, 1e-9, 0.1, 0.7, 3.0, 1e9] {
            let (buy, sell) = classify(&unit, d(delta_p), d(0.9), d(volume)).unwrap();
            let (b, s) = classify(&unit, d(-delta_p), d(0.9), d(volume)).unwrap();
            let off = volume * f64::EPSILON * 4.0;
            assert!((f(b) - f(sell)).abs() <= off && (f(s) - f(buy)).abs() <= off);
        }
    }
}

#[test]
fn a_rolling_deviation_is_the_sample_deviation() {
    let mut sigma = RollingSigma::new(4).ok().unwrap();
    let mut last = None;
    for x in [99.0, 1.0, 2.0, 3.0, 6.0] {
        last = sigma.push(&unit, d(x));
    }
    // The last four have the mean 3 and the squares 4, 1, 0 and 9.
    assert_eq!(last.map(f), Some((14.0f64 / 3.0).sqrt()));

    // Four samples: 22 units of the precision, and the mean's own.
    let mut rng = SplitMix64::new(31);
    for _ in 0..200 {
        let xs: Vec<i64> = (0..4).map(|_| (rng.next_u64() % 2_000_001) as i64 - 1_000_000).collect();
        let mut sigma = RollingSigma::new(4).ok().unwrap();
        let mut last = None;
        for x in &xs {
            last = sigma.push(&unit, d(*x as f64));
        }
        let total: i64 = xs.iter().sum();
        let squares: i64 = xs.iter().map(|x| x * x).sum();
        let spread = (4 * squares - total * total) as f64;
        let variance = f(last.unwrap()).powi(2);
        assert!((12.0 * variance - spread).abs() <= 1e-14 * spread + 1e-6);
    }
}

#[test]
fn deviations_of_large_numbers_stay_finite() {
    for x in [1e140, 1e150, 3e153] {
        let mut sigma = RollingSigma::new(2).ok().unwrap();
        sigma.push(&unit, d(x));
        let s = f(sigma.push(&unit, d(-x)).unwrap());
        assert!((s / x - 2.0f64.sqrt()).abs() <= 1e-14);
    }
}

#[test]
fn a_median_stands_in_the_middle_whatever_the_order() {
    let orders: [[u32; 6]; 3] = [[7, 3, 9, 3, 1, 8], [1, 3, 3, 7, 8, 9], [9, 8, 7, 3, 3, 1]];
    for values in orders {
        let m = median_u32(&values.to_vec());
        assert_eq!(m, 7);
        assert!(values.iter().filter(|x| **x < m).count() <= 3);
        assert!(values.iter().filter(|x| **x <= m).count() > 3);
    }
    assert_eq!(median_u32(&vec![5]), 5);
    assert_eq!(median_u32(&vec![5, 2, 2]), 2);
}

fn tape() -> Vec<Trade> {
    let mut rng = SplitMix64::new(8);
    let mut price = 100.0;
    (0..400u64)
        .map(|i| {
            let up = rng.next_u64() % 2 == 0;
            price += if up { 0.37 } else { -0.36 };
            Trade {
                price: d(price),
                volume: d(1.0 + (rng.next_u64() % 9) as f64),
                ts_ns: i,
                taker_side: if up { TakerSide::Buy } else { TakerSide::Sell },
            }
        })
        .collect()
}

#[test]
fn buckets_are_numbered_from_zero_in_the_order_they_close() {
    let mut engine = VpinEngine::new(VpinEngineConfig {
        bucket_volume: d(13.0),
        sigma_window: 5,
        vpin_window: 5,
        cdf_window: None,
        confidence_interval: None,
    })
    .ok()
    .unwrap();
    let mut next = 0;
    for t in tape() {
        if let Some(r) = engine.push_trade(&unit, t.price, t.volume, t.ts_ns) {
            assert_eq!(r.bucket_id, next);
            next += 1;
        }
    }
    assert!(next > 100);
}

#[test]
fn a_reading_has_its_parts_in_time() {
    let mut engine = VpinEngine::new(VpinEngineConfig {
        bucket_volume: d(13.0),
        sigma_window: 5,
        vpin_window: 7,
        cdf_window: Some(4),
        confidence_interval: Some(ConfidenceIntervalConfig {
            confidence_level: d(0.9),
            bootstrap_samples: 20,
            seed: 3,
        }),
    })
    .ok()
    .unwrap();
    let mut scores = 0;
    for t in tape() {
        if let Some(r) = engine.push_trade(&unit, t.price, t.volume, t.ts_ns) {
            assert_eq!(r.vpin.is_some(), r.bucket_id + 1 >= 12);
            assert_eq!(r.vpin_ci_low.is_some(), r.vpin.is_some());
            assert_eq!(r.vpin_ci_high.is_some(), r.vpin.is_some());
            if r.vpin.is_some() {
                scores += 1;
            }
            assert_eq!(r.vpin_cdf.is_some(), scores >= 4);
            if let Some(rank) = r.vpin_cdf {
                assert!(0.0 < f(rank) && f(rank) <= 1.0);
            }
        }
    }
    assert!(scores > 50);
}

#[test]
fn a_sweep_point_describes_fractions() {
    let trades = tape();
    let bvc = bvc_accuracy_stats(&unit, &trades, d(13.0), 5).ok().unwrap();
    assert!(bvc.compared > 0 && in_unit(f(bvc.accuracy)));
    let stats = calibrate_one(&unit, &trades, d(13.0), 5, 5, Some(10), bvc).ok().unwrap();
    assert!(stats.non_warmup_readings > 0 && in_unit(f(stats.vpin_mean)));
}

#[test]
fn the_other_cohort_does_not_count() {
    let rank_with = |quiet: f64| {
        let mut c = IntensityAdjustedCdf::new(6).ok().unwrap();
        for i in 0..5u32 {
            let (vpin, trades) = if i % 2 == 0 { (quiet, 3) } else { (0.5 + 0.1 * f64::from(i), 90) };
            assert!(c.push(&unit, d(vpin), trades).is_none());
        }
        f(c.push(&unit, d(0.7), 90).unwrap())
    };
    assert_eq!(rank_with(0.1), rank_with(0.99));
    assert_eq!(rank_with(0.1), 2.0 / 3.0);
}

#[test]
fn huge_volumes_stay_finite() {
    let mut engine = VpinEngine::new(VpinEngineConfig {
        bucket_volume: d(1e240),
        sigma_window: 3,
        vpin_window: 4,
        cdf_window: Some(5),
        confidence_interval: Some(ConfidenceIntervalConfig {
            confidence_level: d(0.9),
            bootstrap_samples: 50,
            seed: 2,
        }),
    })
    .ok()
    .unwrap();
    let mut scored = 0;
    for t in tape() {
        let volume = d(f(t.volume) * 1e239);
        if let Some(r) = engine.push_trade(&unit, t.price, volume, t.ts_ns) {
            if let (Some(v), Some(low), Some(high)) = (r.vpin, r.vpin_ci_low, r.vpin_ci_high) {
                assert!(in_unit(f(v)) && in_unit(f(low)) && in_unit(f(high)));
                assert!(f(low) <= f(high));
                scored += 1;
            }
        }
    }
    assert!(scored > 50);
}
