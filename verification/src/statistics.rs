//! What the figures of a calibration are: means, extremes, gaps and the
//! comparison of the classification with the taker side.

use crate::bounds::lemma_filter_len;
use crate::bucket::{bucket_after, bucket_closed};
use crate::bvc::sides;
use crate::calibrate::{
    bvc_after, bvc_result, interval_ms, known_vpins, largest, scaled, smallest, stats_of, summary,
    BvcState, BvcStats, Trade,
};
use crate::deviation::{in_quanta, lemma_sum_up, total};
use crate::double::{
    eval, mean, sample_std, sum, Double, Op, FRACTION, HALF, HUNDRED_MILLION, INFINITY, MILLION,
    SIGN,
};
use crate::ieee::{
    distance, lemma_at_least, lemma_at_most, lemma_constants, lemma_negated, lemma_orders,
    lemma_quanta_order, negated, nonnegative, quanta, rounded, rounds, unity, zero, EXACT,
};
use crate::precision::{
    lemma_added, lemma_around, lemma_chain, lemma_chain_down, lemma_multiple, lemma_off_or_least,
    lemma_relative, lemma_rounded_reduced,
};
use crate::trade::TakerSide;
use crate::vpin::{sigma_after, VpinEngineConfig, VpinReading};
use vstd::arithmetic::mul::{lemma_mul_inequality, lemma_mul_is_associative};
use vstd::arithmetic::power2::{
    lemma2_to64, lemma_pow2_adds, lemma_pow2_strictly_increases, pow2,
};
use vstd::prelude::*;

verus! {

/// A mean of numbers that are not negative is their total over their count:
/// times the count it is the total, to within two units of the precision for
/// each number and two more on either side, and half a quantum of the mean.
pub proof fn law_mean_is_total_over_count<A: Fn(Op) -> Double>(a: A, xs: Seq<Double>)
    requires
        rounds(a),
        0 < xs.len(),
        16 * xs.len() <= EXACT,
        forall|i: int| 0 <= i < xs.len() ==> nonnegative(#[trigger] xs[i]),
        sum(a, xs).finite(),
    ensures
        ({
            let m = quanta(mean(a, xs)) * xs.len();
            let exact = total(xs.map_values(|x: Double| quanta(x)));
            let (n, off) = (xs.len(), 2 * xs.len() + 2);
            &&& mean(a, xs).finite()
            &&& EXACT * m <= (EXACT + off) * (exact + n)
            &&& (EXACT - off) * exact <= EXACT * (m + n)
        }),
{
    lemma_constants();
    lemma_sum_up(a, xs);
    assert(in_quanta(xs) =~= xs.map_values(|x: Double| quanta(x)));
    let r = mean(a, xs);
    let (s, n, u, p) = (sum(a, xs), xs.len() as int, unity(), EXACT as int);
    let (q, t) = (quanta(s), total(in_quanta(xs)));
    let count = eval(a, Op::Of(xs.len() as u64));
    assert(count.finite() && quanta(count) == n * u) by {
        lemma_orders(a);
    }
    lemma_mul_inequality(1, n, u);
    lemma_quanta_order(count, zero());
    assert(rounded(r, q * u, n * u));
    lemma_rounded_reduced(r, q, n, u);
    lemma_at_least(r, zero(), q, n);
    assert(q <= q * n) by (nonlinear_arith)
        requires
            q >= 0,
            n >= 1,
    ;
    lemma_at_most(r, s, q, n);
    lemma_relative(r, q, n);
    let m = quanta(r) * n;
    lemma_off_or_least(p, m, q, n);
    let k = 2 * n;
    lemma_mul_inequality(p, p + k, n);
    lemma_added(p, p + k, q, t, n, n);
    lemma_chain(p, m, q + n, t + n, 1, k);
    lemma_chain_down(p, m + n, q, t, 1, k);
    lemma_mul_inequality(p - k - 2, p - 1 - k, t);
}

/// The smallest of some numbers is one of them and at most each of them, and
/// the largest is one of them and at least each of them.
pub proof fn law_extremes_bound_the_values(xs: Seq<Double>)
    requires
        xs.len() > 0,
        forall|i: int| 0 <= i < xs.len() ==> !(#[trigger] xs[i]).nan(),
    ensures
        xs.contains(smallest(xs)),
        xs.contains(largest(xs)),
        forall|i: int| 0 <= i < xs.len() ==> smallest(xs).at_most(#[trigger] xs[i]),
        forall|i: int| 0 <= i < xs.len() ==> (#[trigger] xs[i]).at_most(largest(xs)),
    decreases xs.len(),
{
    let init = xs.drop_last();
    let last = xs[xs.len() - 1];
    if init.len() == 0 {
        reveal_with_fuel(smallest, 2);
        reveal_with_fuel(largest, 2);
        assert(last.at_most(Double { bits: INFINITY }));
        assert((Double { bits: (SIGN + INFINITY) as u64 }).at_most(last));
        assert(smallest(xs) == last && largest(xs) == last);
    } else {
        assert forall|i: int| 0 <= i < init.len() implies !(#[trigger] init[i]).nan() by {
            assert(init[i] == xs[i]);
        }
        law_extremes_bound_the_values(init);
        let (i, j) = (init.index_of(smallest(init)), init.index_of(largest(init)));
        assert(xs[i] == smallest(init) && xs[j] == largest(init));
        assert(xs[xs.len() - 1] == last);
        assert forall|i: int| 0 <= i < xs.len() implies smallest(xs).at_most(#[trigger] xs[i]) by {
            if i < init.len() {
                assert(smallest(init).at_most(init[i]));
            }
        }
        assert forall|i: int| 0 <= i < xs.len() implies (#[trigger] xs[i]).at_most(largest(xs)) by {
            if i < init.len() {
                assert(init[i].at_most(largest(init)));
            }
        }
    }
}

/// A summary has the mean, the smallest, the largest and the sample deviation,
/// in this order; one number has a deviation of zero, and no number has
/// anything.
pub proof fn law_summary_has_its_figures<A: Fn(Op) -> Double>(a: A, xs: Seq<Double>)
    requires
        forall|i: int| 0 <= i < xs.len() ==> !(#[trigger] xs[i]).nan(),
    ensures
        ({
            let (middle, low, high, deviation) = summary(a, xs);
            if xs.len() == 0 {
                middle.nan() && low.nan() && high.nan() && deviation.nan()
            } else {
                &&& middle == mean(a, xs)
                &&& xs.contains(low)
                &&& xs.contains(high)
                &&& forall|i: int|
                    0 <= i < xs.len() ==> low.at_most(#[trigger] xs[i]) && xs[i].at_most(high)
                &&& if xs.len() == 1 {
                    quanta(deviation) == 0
                } else {
                    deviation == sample_std(a, xs)
                }
            }
        }),
{
    lemma_constants();
    if xs.len() > 0 {
        law_extremes_bound_the_values(xs);
    }
}

/// The larger constants in quanta.
proof fn lemma_large_constants()
    ensures
        (Double { bits: MILLION }).finite(),
        (Double { bits: HUNDRED_MILLION }).finite(),
        quanta(Double { bits: MILLION }) == 1_000_000 * unity(),
        quanta(Double { bits: HUNDRED_MILLION }) == 100_000_000 * unity(),
{
    let f = FRACTION as int;
    lemma2_to64();
    lemma_pow2_adds(32, 1);
    assert(MILLION as int / f == 1042 && f + MILLION as int % f == 1_000_000 * pow2(33));
    assert(HUNDRED_MILLION as int / f == 1049 && f + HUNDRED_MILLION as int % f == 100_000_000
        * pow2(26));
    lemma_pow2_adds(33, 1041);
    lemma_pow2_adds(26, 1048);
    lemma_mul_is_associative(1_000_000, pow2(33) as int, pow2(1041) as int);
    lemma_mul_is_associative(100_000_000, pow2(26) as int, pow2(1048) as int);
}

/// A count is a finite number that is not negative.
proof fn lemma_count<A: Fn(Op) -> Double>(a: A, n: u64)
    requires
        rounds(a),
    ensures
        eval(a, Op::Of(n)).finite(),
        quanta(eval(a, Op::Of(n))) >= 0,
        nonnegative(eval(a, Op::Of(n))),
{
    lemma_constants();
    let (r, u) = (eval(a, Op::Of(n)), unity());
    lemma2_to64();
    lemma_pow2_adds(64, 1074);
    lemma_pow2_strictly_increases(1138, 2097);
    let top = lemma_multiple(1, 1138);
    assert(0 <= n * u <= pow2(64) * u) by (nonlinear_arith)
        requires
            0 <= n <= pow2(64),
            u > 0,
    ;
    lemma_around(r, n * u, 1, top);
    lemma_at_least(r, zero(), n * u, 1);
    lemma_quanta_order(zero(), r);
}

/// The mean gap between closes is the time from the first to the last over the
/// number of gaps, and a million nanoseconds to the millisecond: each step gives
/// the nearest number. A clock that ran back counts as no time.
pub proof fn law_mean_gap_is_the_span_over_the_gaps<A: Fn(Op) -> Double>(a: A, times: Seq<u64>)
    requires
        rounds(a),
        2 <= times.len() <= EXACT,
    ensures
        exists|span: Double, gap: Double|
            {
                let first = times[0] as int;
                let last = times[times.len() - 1] as int;
                &&& rounded(
                    span,
                    (if first <= last {
                        last - first
                    } else {
                        0
                    }) * unity(),
                    1,
                )
                &&& #[trigger] rounded(gap, quanta(span), times.len() - 1)
                &&& rounded(interval_ms(a, times), quanta(gap), 1_000_000)
            },
{
    lemma_constants();
    let (first, last, u) = (times[0], times[times.len() - 1], unity());
    let ns: u64 = if first <= last {
        (last - first) as u64
    } else {
        0
    };
    let span = eval(a, Op::Of(ns));
    let count = eval(a, Op::Of((times.len() - 1) as u64));
    let gap = eval(a, Op::Div(span, count));
    let million = Double { bits: MILLION };
    assert(rounded(span, ns * u, 1));
    let n = times.len() - 1;
    assert(count.finite() && quanta(count) == n * u) by {
        lemma_orders(a);
    }
    assert(n * u > 0) by (nonlinear_arith)
        requires
            n > 0,
            u > 0,
    ;
    lemma_quanta_order(count, zero());
    lemma_count(a, ns);
    lemma_rounded_reduced(gap, quanta(span), n, u);
    lemma_large_constants();
    lemma_quanta_order(million, zero());
    assert(gap.finite()) by {
        lemma_at_least(gap, zero(), quanta(span), n);
        assert(quanta(span) <= quanta(span) * n) by (nonlinear_arith)
            requires
                quanta(span) >= 0,
                n >= 1,
        ;
        lemma_at_most(gap, span, quanta(span), n);
    }
    lemma_rounded_reduced(interval_ms(a, times), quanta(gap), 1_000_000, u);
    assert(rounded(gap, quanta(span), n));
}

/// Captured units of 1e-8 become the number nearest to a hundred millionth of
/// them, as long as they are counted exactly.
pub proof fn law_units_are_hundred_millionths<A: Fn(Op) -> Double>(a: A, raw: u64)
    requires
        rounds(a),
        raw <= EXACT,
    ensures
        rounded(scaled(a, raw), raw * unity(), 100_000_000),
{
    lemma_constants();
    lemma_large_constants();
    let u = unity();
    let units = eval(a, Op::Of(raw));
    assert(units.finite() && quanta(units) == raw * u) by {
        lemma_orders(a);
    }
    lemma_quanta_order(Double { bits: HUNDRED_MILLION }, zero());
    lemma_rounded_reduced(scaled(a, raw), raw * u, 100_000_000, u);
}

/// The scores of some readings are those of the readings that have one, in
/// their order.
pub proof fn law_known_scores_are_those_there_are(rs: Seq<VpinReading>)
    ensures
        known_vpins(rs) == rs.filter(|r: VpinReading| r.vpin is Some).map_values(
            |r: VpinReading| r.vpin->0,
        ),
    decreases rs.len(),
{
    let keep = |r: VpinReading| r.vpin is Some;
    let value = |r: VpinReading| r.vpin->0;
    reveal(Seq::filter);
    if rs.len() > 0 {
        law_known_scores_are_those_there_are(rs.drop_last());
    }
    assert(known_vpins(rs) =~= rs.filter(keep).map_values(value));
}

/// The figures of a configuration are those of the scores that its readings
/// have, of the times at which its buckets closed, and of its comparison.
pub proof fn law_figures_describe_the_readings<A: Fn(Op) -> Double>(
    a: A,
    cfg: VpinEngineConfig,
    rs: Seq<VpinReading>,
    bvc: BvcStats,
)
    requires
        rs.len() <= u64::MAX,
    ensures
        ({
            let s = stats_of(a, cfg, rs, bvc);
            let scores = rs.filter(|r: VpinReading| r.vpin is Some).map_values(
                |r: VpinReading| r.vpin->0,
            );
            let times = rs.map_values(|r: VpinReading| r.ts_close_ns);
            &&& s.bucket_volume == cfg.bucket_volume
            &&& s.sigma_window == cfg.sigma_window
            &&& s.vpin_window == cfg.vpin_window
            &&& s.total_buckets == rs.len()
            &&& s.non_warmup_readings == scores.len()
            &&& (s.vpin_mean, s.vpin_min, s.vpin_max, s.vpin_stddev) == summary(a, scores)
            &&& s.avg_bucket_interval_ms == interval_ms(a, times)
            &&& s.bvc_accuracy == bvc.accuracy
            &&& s.bvc_mean_abs_error == bvc.mean_abs_error
            &&& s.bvc_compared == bvc.compared
            &&& s.bvc_accuracy_p_value.nan()
        }),
{
    law_known_scores_are_those_there_are(rs);
    let keep = |r: VpinReading| r.vpin is Some;
    lemma_filter_len(rs, keep);
}

/// What a finished comparison comes to: the accuracy is the number nearest to
/// the right calls over the calls, the error is the mean of the calls' errors,
/// and without a call there is neither.
pub proof fn law_accuracy_is_the_share_of_right_calls<A: Fn(Op) -> Double>(a: A, s: BvcState)
    requires
        rounds(a),
        s.correct <= s.errors.len() <= EXACT,
    ensures
        ({
            let r = bvc_result(a, s);
            &&& r.compared == s.errors.len()
            &&& if s.errors.len() == 0 {
                r.accuracy.nan() && r.mean_abs_error.nan()
            } else {
                &&& rounded(r.accuracy, s.correct * unity(), s.errors.len() as int)
                &&& r.mean_abs_error == mean(a, s.errors)
            }
        }),
{
    lemma_constants();
    let (u, n) = (unity(), s.errors.len() as int);
    if n > 0 {
        let (hits, tries) = (
            eval(a, Op::Of(s.correct as u64)),
            eval(a, Op::Of(s.errors.len() as u64)),
        );
        assert(hits.finite() && quanta(hits) == s.correct * u) by {
            lemma_orders(a);
        }
        assert(tries.finite() && quanta(tries) == n * u) by {
            lemma_orders(a);
        }
        assert(n * u > 0) by (nonlinear_arith)
            requires
                n > 0,
                u > 0,
        ;
        lemma_quanta_order(tries, zero());
        lemma_rounded_reduced(bvc_result(a, s).accuracy, s.correct * u, n, u);
    }
}

/// What a trade does to the comparison. Its volume counts for its own side and
/// no other. A bucket that it closes is called where the deviation from before
/// it is finite and positive and the price change finite: the call is the
/// called buy side over the bucket's volume, the truth the buyers' volume over
/// that of both sides. The call is right when both or neither of the two
/// numbers are more than one half, and its error is how far they lie apart. Then
/// both sides start again from nothing.
pub proof fn law_a_call_is_compared_with_the_takers<A: Fn(Op) -> Double>(
    a: A,
    s: BvcState,
    t: Trade,
)
    requires
        rounds(a),
    ensures
        ({
            let after = bvc_after(a, s, t);
            let grown = |x: Double| eval(a, Op::Add(x, t.volume));
            let buy = if t.taker_side == TakerSide::Buy {
                grown(s.buy_volume)
            } else {
                s.buy_volume
            };
            let sell = if t.taker_side == TakerSide::Sell {
                grown(s.sell_volume)
            } else {
                s.sell_volume
            };
            let half = Double { bits: HALF };
            &&& after.bucketer == bucket_after(a, s.bucketer, t.price, t.volume)
            &&& match bucket_closed(a, s.bucketer, t.price, t.volume, t.ts_ns) {
                None => {
                    &&& after.buy_volume == buy
                    &&& after.sell_volume == sell
                    &&& after.sigma == s.sigma
                    &&& after.correct == s.correct
                    &&& after.errors == s.errors
                },
                Some(closed) => {
                    &&& quanta(after.buy_volume) == 0
                    &&& quanta(after.sell_volume) == 0
                    &&& after.sigma == sigma_after(a, s.sigma, closed.delta_p)
                    &&& if s.sigma.current is Some && s.sigma.current->0.finite()
                        && s.sigma.current->0.positive() && closed.delta_p.finite() {
                        let side = sides(a, closed.delta_p, s.sigma.current->0, closed.volume).0;
                        let called = eval(a, Op::Div(side, closed.volume));
                        let truth = eval(a, Op::Div(buy, eval(a, Op::Add(buy, sell))));
                        let error = after.errors.last();
                        &&& after.errors.len() == s.errors.len() + 1
                        &&& after.errors.drop_last() == s.errors
                        &&& after.correct == s.correct + (if half.below(called) == half.below(
                            truth,
                        ) {
                            1int
                        } else {
                            0
                        })
                        &&& called.finite() && truth.finite() ==> rounded(
                            error,
                            distance(quanta(called), quanta(truth)),
                            1,
                        )
                    } else {
                        &&& after.correct == s.correct
                        &&& after.errors == s.errors
                    }
                },
            }
        }),
{
    lemma_constants();
    if let Some(closed) = bucket_closed(a, s.bucketer, t.price, t.volume, t.ts_ns) {
        if s.sigma.current is Some && s.sigma.current->0.finite() && s.sigma.current->0.positive()
            && closed.delta_p.finite() {
            let after = bvc_after(a, s, t);
            assert(after.errors.drop_last() =~= s.errors);
            let buy = if t.taker_side == TakerSide::Buy {
                eval(a, Op::Add(s.buy_volume, t.volume))
            } else {
                s.buy_volume
            };
            let sell = if t.taker_side == TakerSide::Sell {
                eval(a, Op::Add(s.sell_volume, t.volume))
            } else {
                s.sell_volume
            };
            let side = sides(a, closed.delta_p, s.sigma.current->0, closed.volume).0;
            let called = eval(a, Op::Div(side, closed.volume));
            let truth = eval(a, Op::Div(buy, eval(a, Op::Add(buy, sell))));
            if called.finite() && truth.finite() {
                lemma_size_of_difference(a, called, truth);
            }
        }
    }
}

/// The size of a difference is the number nearest to the distance.
proof fn lemma_size_of_difference<A: Fn(Op) -> Double>(a: A, x: Double, y: Double)
    requires
        rounds(a),
        x.finite(),
        y.finite(),
    ensures
        rounded(eval(a, Op::Sub(x, y)).absolute(), distance(quanta(x), quanta(y)), 1),
{
    lemma_constants();
    let d = eval(a, Op::Sub(x, y));
    let g = quanta(x) - quanta(y);
    if g >= 0 {
        lemma_at_least(d, zero(), g, 1);
    } else {
        lemma_negated(d, g, 1);
        lemma_at_least(negated(d), zero(), -g, 1);
    }
}

} // verus!
