//! What holds of every reading whatever the tape looks like: scores, ranks and
//! interval bounds stay between 0 and 1.
//!
//! These laws are about numbers that have been rounded many times over, so
//! they are stated for any arithmetic unit that rounds to the nearest number.

use crate::bootstrap::{
    drawn_index, firsts, interpolated, interval, ratio, resample, resampled_ratios, seconds, tail,
    ConfidenceIntervalConfig,
};
use crate::bucket::{bucket_closed, filled_volume, ClosedBucket};
use crate::bvc::{buy_side, classifiable, sides};
use crate::calibrate::{
    bvc_at, bvc_result, engine_at, is_ranked, known_vpins, law_readings_have_their_parts_in_time,
    lemma_bvc_at, readings, room_throughout, stats_of, BvcStats, Trade,
};
use crate::double::{
    ascending, eval, sum, total_le, Double, Op, FRACTION, FRAC_1_SQRT_2, TWO,
};
use crate::ieee::{
    distance, grid, in_unit, lemma_at_least, lemma_at_most, lemma_below_overflow, lemma_constants,
    lemma_error, lemma_grid, lemma_orders, lemma_quanta_order, lemma_whole, nonnegative, one,
    quanta, rounded, rounds, unity, zero, EXACT,
};
use crate::intensity::{
    adjusted_rank, cohort, intensities, intensity_after, is_busy, median, IntensityState,
};
use crate::rng::state_after;
use crate::vpin::{
    cdf_after, cdf_rank, config_error, count_at_most, engine_after, imbalance, imbalances_after,
    is_classified, rank, reading_at, vpin_at, vpin_cdf_at, vpin_ci_at, CdfState, EngineState,
    VpinEngineConfig, VpinReading,
};
use crate::window::slide;
use vstd::arithmetic::power2::{lemma2_to64, lemma_pow2_adds, lemma_pow2_pos, pow2};
use vstd::prelude::*;
use vstd::relations::sorted_by;

verus! {

/// The buy-side fraction of a bucket lies between 0 and 1.
pub proof fn law_buy_fraction_is_a_fraction<A: Fn(Op) -> Double>(
    a: A,
    delta_p: Double,
    sigma: Double,
)
    requires
        rounds(a),
        classifiable(delta_p, sigma),
    ensures
        in_unit(buy_side(a, delta_p, sigma)),
{
    lemma_orders(a);
    let z = eval(a, Op::Div(delta_p, sigma));
    assert(!z.nan());
    let s = eval(a, Op::Mul(z, Double { bits: FRAC_1_SQRT_2 }));
    assert(!s.nan());
    let e = eval(a, Op::Erf(s));
    assert(e.absolute().at_most(one()));
    let t = eval(a, Op::Add(one(), e));
    assert(nonnegative(t) && t.at_most(Double { bits: TWO }));
}

/// No side of a bucket is larger than the bucket, and neither is the imbalance
/// between them.
pub proof fn law_imbalance_is_at_most_the_volume<A: Fn(Op) -> Double>(
    a: A,
    closed: ClosedBucket,
    sigma: Double,
)
    requires
        rounds(a),
        classifiable(closed.delta_p, sigma),
        closed.volume.finite(),
        closed.volume.positive(),
    ensures
        ({
            let (buy, sell) = sides(a, closed.delta_p, sigma, closed.volume);
            &&& nonnegative(buy) && buy.at_most(closed.volume)
            &&& nonnegative(sell) && sell.at_most(closed.volume)
        }),
        nonnegative(imbalance(a, closed, sigma)),
        imbalance(a, closed, sigma).at_most(closed.volume),
{
    lemma_orders(a);
    law_buy_fraction_is_a_fraction(a, closed.delta_p, sigma);
    let v = closed.volume;
    let (buy, sell) = sides(a, closed.delta_p, sigma, v);
    assert(nonnegative(buy) && buy.at_most(v));
    assert(nonnegative(sell) && sell.at_most(v));
    assert(v.finite());
    assert(eval(a, Op::Sub(buy, sell)).absolute().at_most(v));
}

/// The two sides add up to the volume, up to the rounding of the one
/// subtraction between them: half a step of a grid that covers the volume. The
/// grid of the largest numbers covers every volume.
pub proof fn law_sides_add_up<A: Fn(Op) -> Double>(
    a: A,
    delta_p: Double,
    sigma: Double,
    volume: Double,
    j: nat,
)
    requires
        rounds(a),
        classifiable(delta_p, sigma),
        volume.finite(),
        volume.positive(),
        j <= 2045,
        j == 2045 || quanta(volume) <= 2 * FRACTION * pow2(j),
    ensures
        ({
            let (buy, sell) = sides(a, delta_p, sigma, volume);
            &&& buy.finite() && sell.finite()
            &&& rounded(sell, quanta(volume) - quanta(buy), 1)
            &&& 2 * distance(quanta(buy) + quanta(sell), quanta(volume)) <= pow2(j)
        }),
{
    lemma_orders(a);
    law_buy_fraction_is_a_fraction(a, delta_p, sigma);
    lemma_constants();
    let (buy, sell) = sides(a, delta_p, sigma, volume);
    assert(nonnegative(buy) && buy.at_most(volume));
    lemma_quanta_order(zero(), buy);
    lemma_quanta_order(buy, volume);
    lemma_below_overflow(volume);
    lemma_error(sell, quanta(volume) - quanta(buy), 1, j);
}

/// An imbalance that is no larger than its positive volume.
pub open spec fn is_fair(p: (Double, Double)) -> bool {
    nonnegative(p.0) && p.0.at_most(p.1) && p.1.positive()
}

pub open spec fn all_fair(pairs: Seq<(Double, Double)>) -> bool {
    forall|i: int| 0 <= i < pairs.len() ==> is_fair(#[trigger] pairs[i])
}

/// The sums of fair pairs are in the order of the pairs.
proof fn lemma_fair_sums<A: Fn(Op) -> Double>(a: A, pairs: Seq<(Double, Double)>)
    requires
        rounds(a),
        all_fair(pairs),
    ensures
        nonnegative(sum(a, firsts(pairs))),
        sum(a, firsts(pairs)).at_most(sum(a, seconds(pairs))),
        pairs.len() > 0 ==> sum(a, seconds(pairs)).positive(),
    decreases pairs.len(),
{
    lemma_orders(a);
    if pairs.len() > 0 {
        let init = pairs.drop_last();
        let p = pairs.last();
        assert(is_fair(pairs[pairs.len() - 1]));
        assert forall|i: int| 0 <= i < init.len() implies is_fair(#[trigger] init[i]) by {
            assert(init[i] == pairs[i]);
        }
        lemma_fair_sums(a, init);
        assert(firsts(pairs).drop_last() =~= firsts(init));
        assert(seconds(pairs).drop_last() =~= seconds(init));
        let (s, t) = (sum(a, firsts(init)), sum(a, seconds(init)));
        assert(nonnegative(t));
        assert(eval(a, Op::Add(s, p.0)).at_most(eval(a, Op::Add(t, p.1))));
        assert(s.at_most(eval(a, Op::Add(s, p.0))));
        assert(p.1.at_most(eval(a, Op::Add(t, p.1))));
    }
}

/// The ratio over fair pairs lies between 0 and 1, as long as the imbalances
/// add up to something finite.
proof fn lemma_fair_ratio<A: Fn(Op) -> Double>(a: A, pairs: Seq<(Double, Double)>)
    requires
        rounds(a),
        all_fair(pairs),
        pairs.len() > 0,
        sum(a, firsts(pairs)).finite(),
    ensures
        in_unit(ratio(a, pairs)),
{
    lemma_orders(a);
    lemma_fair_sums(a, pairs);
}

/// An engine whose window is fair, with a bucket that is not below zero and
/// with windows and interval settings that were accepted.
pub open spec fn is_fair_engine(s: EngineState) -> bool {
    &&& all_fair(s.imbalances)
    &&& nonnegative(s.bucketer.acc_volume)
    &&& s.vpin_window >= 1
    &&& s.cdf matches Some(c) ==> 2 <= c.window <= u64::MAX && c.values.len() <= c.window
    &&& s.ci matches Some((c, rng)) ==> is_interval_config(c)
}

/// Interval settings that an engine accepts, with no more resamples than are
/// counted exactly.
pub open spec fn is_interval_config(c: ConfidenceIntervalConfig) -> bool {
    &&& 2 <= c.bootstrap_samples <= EXACT
    &&& zero().below(c.confidence_level)
    &&& c.confidence_level.below(one())
}

/// What a trade does to an engine stays within the range of doubles: the
/// bucket that it closes is finite, and so are the total imbalances of the
/// window and of its resamples.
pub open spec fn stays_finite<A: Fn(Op) -> Double>(
    a: A,
    s: EngineState,
    price: Double,
    volume: Double,
    ts_ns: u64,
) -> bool {
    bucket_closed(a, s.bucketer, price, volume, ts_ns) matches Some(closed) ==> {
        &&& closed.volume.finite()
        &&& sum(a, firsts(imbalances_after(a, s, closed))).finite()
        &&& s.ci matches Some((c, rng)) ==> resamples_stay_finite(
            a,
            imbalances_after(a, s, closed),
            rng,
            c.bootstrap_samples as nat,
        )
    }
}

/// Whether all resamples that an interval draws have finite imbalances.
pub open spec fn resamples_stay_finite<A: Fn(Op) -> Double>(
    a: A,
    pairs: Seq<(Double, Double)>,
    state: u64,
    count: nat,
) -> bool {
    forall|j: int|
        0 <= j < count ==> sum(
            a,
            firsts(#[trigger] resample(pairs, state_after(state, (j * pairs.len()) as nat))),
        ).finite()
}

pub open spec fn optional_in_unit(x: Option<Double>) -> bool {
    x matches Some(v) ==> in_unit(v)
}

pub open spec fn optional_positive(x: Option<Double>) -> bool {
    x matches Some(v) ==> v.positive()
}

/// A reading whose numbers, as far as it has them, lie between 0 and 1, with a
/// rank above 0 and interval bounds in their order.
pub open spec fn reading_in_unit(r: VpinReading) -> bool {
    &&& optional_in_unit(r.vpin)
    &&& optional_in_unit(r.vpin_cdf)
    &&& optional_positive(r.vpin_cdf)
    &&& optional_in_unit(r.vpin_ci_low)
    &&& optional_in_unit(r.vpin_ci_high)
    &&& (r.vpin_ci_low matches Some(low) ==> r.vpin_ci_high matches Some(high) ==> low.at_most(
        high,
    ))
}

/// Sliding keeps a window fair.
proof fn lemma_slide_fair(cap: nat, pairs: Seq<(Double, Double)>, p: (Double, Double))
    requires
        cap >= 1,
        all_fair(pairs),
        is_fair(p),
    ensures
        all_fair(slide(cap, pairs, p)),
{
    let next = slide(cap, pairs, p);
    assert forall|i: int| 0 <= i < next.len() implies is_fair(#[trigger] next[i]) by {
        if i == next.len() - 1 {
            assert(next[i] == p);
        } else if pairs.len() == cap {
            assert(next[i] == pairs[i + 1]);
        } else {
            assert(next[i] == pairs[i]);
        }
    }
}

/// A rank lies between 0 and 1; of a value that nothing exceeds it is 1, and of
/// a value that is in the list itself it is above 0.
pub proof fn law_rank_is_in_the_unit_interval<A: Fn(Op) -> Double>(
    a: A,
    values: Seq<Double>,
    value: Double,
)
    requires
        rounds(a),
        0 < values.len() <= u64::MAX,
    ensures
        in_unit(rank(a, values, value)),
        (forall|i: int| 0 <= i < values.len() ==> (#[trigger] values[i]).at_most(value)) ==> rank(
            a,
            values,
            value,
        ).equal(one()),
        values.contains(value) && !value.nan() ==> rank(a, values, value).positive(),
{
    lemma_orders(a);
    let keep = |v: Double| v.at_most(value);
    lemma_filter_len(values, keep);
    if values.contains(value) && !value.nan() {
        let i = choose|i: int| 0 <= i < values.len() && values[i] == value;
        assert(keep(values[i]));
        lemma_share_is_positive(a, count_at_most(values, value) as u64, values.len() as u64);
    }
    let n = count_at_most(values, value);
    assert(n <= values.len());
    let (x, y) = (eval(a, Op::Of(n as u64)), eval(a, Op::Of(values.len() as u64)));
    assert(x.at_most(y) && y.positive());
}

/// One or more out of any count is a share above 0.
proof fn lemma_share_is_positive<A: Fn(Op) -> Double>(a: A, part: u64, whole: u64)
    requires
        rounds(a),
        part > 0,
        whole > 0,
    ensures
        eval(a, Op::Div(eval(a, Op::Of(part)), eval(a, Op::Of(whole)))).positive(),
{
    lemma_orders(a);
    lemma_constants();
    let (x, y) = (eval(a, Op::Of(part)), eval(a, Op::Of(whole)));
    let r = eval(a, Op::Div(x, y));
    let u = unity();
    // Two to the minus sixty-four is a number, and not above the quotient.
    let least = Double { bits: grid(1, 1010) as u64 };
    let top = Double { bits: grid(1, 1138) as u64 };
    lemma_grid(1, 1010);
    lemma_grid(1, 1138);
    lemma_pow2_adds(64, 1074);
    lemma_pow2_adds(1010, 64);
    lemma_pow2_pos(1010);
    lemma2_to64();
    let (p, q) = (quanta(x), quanta(y));
    assert(u <= part * u && whole * u <= pow2(64) * u) by (nonlinear_arith)
        requires
            part >= 1,
            whole <= pow2(64),
            u > 0,
    ;
    lemma_at_least(x, one(), part * u, 1);
    lemma_at_most(y, top, whole * u, 1);
    lemma_quanta_order(one(), x);
    lemma_quanta_order(y, top);
    lemma_quanta_order(zero(), y);
    lemma_quanta_order(y, zero());
    assert(quanta(least) * q <= p * u) by (nonlinear_arith)
        requires
            quanta(least) == pow2(1010),
            0 <= q <= pow2(64) * u,
            pow2(1010) * pow2(64) == u,
            u <= p,
            u > 0,
            pow2(1010) > 0,
    ;
    lemma_at_least(r, least, p * u, q);
    lemma_quanta_order(least, zero());
}

/// A filter keeps no more than there is, everything where all passes, and
/// something where something passes.
pub proof fn lemma_filter_len<T>(s: Seq<T>, keep: spec_fn(T) -> bool)
    ensures
        s.filter(keep).len() <= s.len(),
        (exists|i: int| 0 <= i < s.len() && keep(#[trigger] s[i])) ==> s.filter(keep).len() > 0,
        (forall|i: int| 0 <= i < s.len() ==> keep(#[trigger] s[i])) ==> s.filter(keep).len()
            == s.len(),
    decreases s.len(),
{
    reveal(Seq::filter);
    if s.len() > 0 {
        lemma_filter_len(s.drop_last(), keep);
        if exists|i: int| 0 <= i < s.len() && keep(#[trigger] s[i]) {
            let i = choose|i: int| 0 <= i < s.len() && keep(#[trigger] s[i]);
            if i < s.len() - 1 {
                assert(keep(s.drop_last()[i]));
            }
        }
        if forall|i: int| 0 <= i < s.len() ==> keep(#[trigger] s[i]) {
            assert forall|i: int| 0 <= i < s.drop_last().len() implies keep(
                #[trigger] s.drop_last()[i],
            ) by {
                assert(s.drop_last()[i] == s[i]);
            }
            assert(keep(s[s.len() - 1]));
        }
    }
}

/// The rank of a score within its own history lies above 0, and at most at 1.
pub proof fn law_cdf_rank_is_in_the_unit_interval<A: Fn(Op) -> Double>(
    a: A,
    s: CdfState,
    value: Double,
)
    requires
        rounds(a),
        2 <= s.window <= u64::MAX,
        s.values.len() <= s.window,
    ensures
        optional_in_unit(cdf_rank(a, s, value)),
        !value.nan() ==> optional_positive(cdf_rank(a, s, value)),
{
    lemma_orders(a);
    let values = cdf_after(s, value).values;
    assert(values[values.len() - 1] == value);
    if values.len() == s.window {
        law_rank_is_in_the_unit_interval(a, values, value);
    }
}

/// The rank of a score among similarly busy buckets lies above 0, and at most
/// at 1.
pub proof fn law_adjusted_rank_is_in_the_unit_interval<A: Fn(Op) -> Double>(
    a: A,
    s: IntensityState,
    vpin: Double,
    trades: u32,
)
    requires
        rounds(a),
        4 <= s.window <= u64::MAX,
        s.history.len() <= s.window,
    ensures
        optional_in_unit(adjusted_rank(a, s, vpin, trades)),
        !vpin.nan() ==> optional_positive(adjusted_rank(a, s, vpin, trades)),
{
    lemma_orders(a);
    let history = intensity_after(s, vpin, trades).history;
    let own = cohort(history, trades);
    assert(history.last() == (vpin, trades));
    assert(0 < own.len() <= history.len() && own[own.len() - 1] == vpin) by {
        let m = median(intensities(history));
        let keep = |p: (Double, u32)| is_busy(p.1, m) == is_busy(trades, m);
        lemma_filter_len(history, keep);
        reveal(Seq::filter);
    }
    if history.len() == s.window {
        law_rank_is_in_the_unit_interval(a, own, vpin);
    }
}

/// Numbers that are not negative have integer parts in their order.
pub proof fn lemma_whole_monotone(x: Double, y: Double)
    requires
        nonnegative(x),
        x.at_most(y),
        y.finite(),
    ensures
        x.whole() <= y.whole(),
{
    lemma_whole(x);
    lemma_whole(y);
    lemma_quanta_order(x, y);
    lemma_constants();
    let (v, w, u) = (x.whole() as int, y.whole() as int, unity());
    assert(v < w + 1) by (nonlinear_arith)
        requires
            v * u < (w + 1) * u,
            u > 0,
    ;
}

/// The value at a fraction of the way through values between 0 and 1 lies
/// between 0 and 1.
proof fn lemma_interpolated_in_unit<A: Fn(Op) -> Double>(a: A, sorted: Seq<Double>, p: Double)
    requires
        rounds(a),
        0 < sorted.len() <= EXACT,
        forall|i: int| 0 <= i < sorted.len() ==> in_unit(#[trigger] sorted[i]),
        in_unit(p),
    ensures
        in_unit(interpolated(a, sorted, p)),
{
    lemma_orders(a);
    let n = sorted.len() - 1;
    let top = eval(a, Op::Of(n as u64));
    let rank = eval(a, Op::Mul(p, top));
    assert(nonnegative(rank) && rank.at_most(top));
    lemma_whole_monotone(rank, top);
    assert(top.whole() == n);
    let lo = rank.whole() as int;
    assert(lo < sorted.len());
    let hi = if lo + 1 < sorted.len() {
        lo + 1
    } else {
        lo
    };
    let frac = eval(a, Op::Sub(rank, eval(a, Op::Of(lo as u64))));
    assert(in_unit(frac));
    let rest = eval(a, Op::Sub(one(), frac));
    assert(in_unit(rest));
    assert(in_unit(sorted[lo]) && in_unit(sorted[hi]) && in_unit(sorted[0]));
    let (low, high) = (eval(a, Op::Mul(sorted[lo], rest)), eval(a, Op::Mul(sorted[hi], frac)));
    assert(nonnegative(low) && low.at_most(rest));
    assert(nonnegative(high) && high.at_most(frac));
    let total = eval(a, Op::Add(low, high));
    assert(total.at_most(eval(a, Op::Add(rest, frac))));
    assert(low.at_most(total));
}

/// The tails that a confidence level leaves are fractions.
pub proof fn lemma_tail<A: Fn(Op) -> Double>(a: A, level: Double)
    requires
        rounds(a),
        zero().below(level),
        level.below(one()),
    ensures
        in_unit(tail(a, level)),
        in_unit(eval(a, Op::Sub(one(), tail(a, level)))),
{
    lemma_orders(a);
    let left = eval(a, Op::Sub(one(), level));
    assert(nonnegative(left) && left.at_most(one()));
}

/// The sorted ratios of the resamples lie between 0 and 1.
pub proof fn lemma_sorted_ratios<A: Fn(Op) -> Double>(
    a: A,
    pairs: Seq<(Double, Double)>,
    state: u64,
    count: nat,
)
    requires
        rounds(a),
        pairs.len() > 0,
        all_fair(pairs),
        resamples_stay_finite(a, pairs, state, count),
    ensures
        ({
            let sorted = ascending(resampled_ratios(a, pairs, state, count));
            &&& sorted.len() == count
            &&& sorted_by(sorted, total_le())
            &&& forall|i: int| 0 <= i < sorted.len() ==> in_unit(#[trigger] sorted[i])
        }),
{
    let ratios = resampled_ratios(a, pairs, state, count);
    assert forall|j: int| 0 <= j < count implies in_unit(#[trigger] ratios[j]) by {
        let start = state_after(state, (j * pairs.len()) as nat);
        let drawn = resample(pairs, start);
        assert forall|k: int| 0 <= k < drawn.len() implies is_fair(#[trigger] drawn[k]) by {
            let at = drawn_index(start, k, pairs.len());
            assert(0 <= at < pairs.len());
            assert(is_fair(pairs[at]));
        }
        lemma_fair_ratio(a, drawn);
    }
    let sorted = ascending(ratios);
    ratios.lemma_sort_by_ensures(total_le());
    assert(sorted.len() == ratios.len()) by {
        broadcast use vstd::seq_lib::group_to_multiset_ensures;

        assert(sorted.to_multiset().len() == ratios.to_multiset().len());
    }
    assert forall|i: int| 0 <= i < sorted.len() implies in_unit(#[trigger] sorted[i]) by {
        broadcast use vstd::seq_lib::group_to_multiset_ensures;

        assert(sorted.contains(sorted[i]));
        assert(ratios.to_multiset().count(sorted[i]) > 0);
        assert(ratios.contains(sorted[i]));
        let j = choose|j: int| 0 <= j < ratios.len() && ratios[j] == sorted[i];
        assert(in_unit(ratios[j]));
    }
}

/// The bounds of a confidence interval lie between 0 and 1, the lower one at
/// most at the upper one. That the interval brackets the score itself is not
/// claimed: a percentile bootstrap does not promise it.
pub proof fn law_interval_is_in_the_unit_interval<A: Fn(Op) -> Double>(
    a: A,
    pairs: Seq<(Double, Double)>,
    cfg: ConfidenceIntervalConfig,
    state: u64,
)
    requires
        rounds(a),
        pairs.len() > 0,
        all_fair(pairs),
        resamples_stay_finite(a, pairs, state, cfg.bootstrap_samples as nat),
        is_interval_config(cfg),
    ensures
        in_unit(interval(a, pairs, cfg, state).0),
        in_unit(interval(a, pairs, cfg, state).1),
        interval(a, pairs, cfg, state).0.at_most(interval(a, pairs, cfg, state).1),
{
    lemma_orders(a);
    lemma_sorted_ratios(a, pairs, state, cfg.bootstrap_samples as nat);
    let sorted = ascending(resampled_ratios(a, pairs, state, cfg.bootstrap_samples as nat));
    lemma_tail(a, cfg.confidence_level);
    lemma_interpolated_in_unit(a, sorted, tail(a, cfg.confidence_level));
    lemma_interpolated_in_unit(
        a,
        sorted,
        eval(a, Op::Sub(one(), tail(a, cfg.confidence_level))),
    );
}

/// One closed bucket: what is read off it lies between 0 and 1, and the window
/// stays fair.
proof fn lemma_bucket_is_fair<A: Fn(Op) -> Double>(a: A, s: EngineState, closed: ClosedBucket)
    requires
        rounds(a),
        is_fair_engine(s),
        closed.volume.positive(),
        closed.volume.finite(),
        sum(a, firsts(imbalances_after(a, s, closed))).finite(),
        s.ci matches Some((c, rng)) ==> resamples_stay_finite(
            a,
            imbalances_after(a, s, closed),
            rng,
            c.bootstrap_samples as nat,
        ),
    ensures
        all_fair(imbalances_after(a, s, closed)),
        optional_in_unit(vpin_at(a, s, closed)),
        optional_in_unit(vpin_cdf_at(a, s, closed)),
        optional_positive(vpin_cdf_at(a, s, closed)),
        vpin_ci_at(a, s, closed) matches Some((low, high)) ==> in_unit(low) && in_unit(high)
            && low.at_most(high),
{
    let window = imbalances_after(a, s, closed);
    if is_classified(s.sigma.current, closed) {
        let sigma = s.sigma.current->0;
        law_imbalance_is_at_most_the_volume(a, closed, sigma);
        lemma_slide_fair(
            s.vpin_window,
            s.imbalances,
            (imbalance(a, closed, sigma), closed.volume),
        );
        if window.len() == s.vpin_window {
            lemma_fair_ratio(a, window);
            if let Some(c) = s.cdf {
                law_cdf_rank_is_in_the_unit_interval(a, c, ratio(a, window));
            }
            if let Some((c, rng)) = s.ci {
                law_interval_is_in_the_unit_interval(a, window, c, rng);
            }
        }
    }
}

/// One trade: its reading's numbers lie between 0 and 1, and the engine stays
/// fair.
proof fn lemma_trade_is_fair<A: Fn(Op) -> Double>(
    a: A,
    s: EngineState,
    price: Double,
    volume: Double,
    ts_ns: u64,
)
    requires
        rounds(a),
        is_fair_engine(s),
        volume.positive(),
        stays_finite(a, s, price, volume, ts_ns),
    ensures
        is_fair_engine(engine_after(a, s, price, volume, ts_ns)),
        reading_at(a, s, price, volume, ts_ns) matches Some(r) ==> reading_in_unit(r),
{
    let filled = filled_volume(a, s.bucketer, volume);
    assert(volume.at_most(filled) && s.bucketer.acc_volume.at_most(filled)) by {
        lemma_orders(a);
    }
    if let Some(closed) = bucket_closed(a, s.bucketer, price, volume, ts_ns) {
        lemma_bucket_is_fair(a, s, closed);
    }
}

/// A tape stays within the range of doubles throughout.
pub open spec fn tape_stays_finite<A: Fn(Op) -> Double>(
    a: A,
    cfg: VpinEngineConfig,
    trades: Seq<Trade>,
) -> bool {
    forall|k: int|
        0 <= k < trades.len() ==> stays_finite(
            a,
            engine_at(a, cfg, #[trigger] trades.take(k)),
            trades[k].price,
            trades[k].volume,
            trades[k].ts_ns,
        )
}

/// VPIN is a normalized imbalance: whatever the tape looks like, however wild
/// its prices and however small its volumes, every reading's score, rank and
/// interval bounds lie between 0 and 1. All that is asked is positive volumes
/// whose sums stay finite.
pub proof fn law_readings_are_in_the_unit_interval<A: Fn(Op) -> Double>(
    a: A,
    cfg: VpinEngineConfig,
    trades: Seq<Trade>,
)
    requires
        rounds(a),
        config_error(cfg) is None,
        cfg.confidence_interval matches Some(c) ==> c.bootstrap_samples <= EXACT,
        forall|k: int| 0 <= k < trades.len() ==> (#[trigger] trades[k]).volume.positive(),
        tape_stays_finite(a, cfg, trades),
    ensures
        is_fair_engine(engine_at(a, cfg, trades)),
        forall|i: int|
            0 <= i < readings(a, cfg, trades).len() ==> reading_in_unit(
                #[trigger] readings(a, cfg, trades)[i],
            ),
    decreases trades.len(),
{
    if trades.len() > 0 {
        let init = trades.drop_last();
        let t = trades.last();
        assert forall|k: int| 0 <= k < init.len() implies stays_finite(
            a,
            engine_at(a, cfg, #[trigger] init.take(k)),
            init[k].price,
            init[k].volume,
            init[k].ts_ns,
        ) by {
            assert(init.take(k) =~= trades.take(k));
            assert(init[k] == trades[k]);
        }
        assert forall|k: int| 0 <= k < init.len() implies (#[trigger] init[k]).volume.positive() by {
            assert(init[k] == trades[k]);
        }
        law_readings_are_in_the_unit_interval(a, cfg, init);
        assert(trades.take(trades.len() - 1) =~= init);
        assert(trades[trades.len() - 1] == t);
        lemma_trade_is_fair(a, engine_at(a, cfg, init), t.price, t.volume, t.ts_ns);
        let before = readings(a, cfg, init);
        assert forall|i: int| 0 <= i < readings(a, cfg, trades).len() implies reading_in_unit(
            #[trigger] readings(a, cfg, trades)[i],
        ) by {
            if i < before.len() {
                assert(readings(a, cfg, trades)[i] == before[i]);
            }
        }
    }
}

/// A sum of numbers between 0 and 1 is at most their count.
proof fn lemma_sum_at_most_count<A: Fn(Op) -> Double>(a: A, xs: Seq<Double>)
    requires
        rounds(a),
        xs.len() <= EXACT,
        forall|i: int| 0 <= i < xs.len() ==> in_unit(#[trigger] xs[i]),
    ensures
        nonnegative(sum(a, xs)),
        sum(a, xs).at_most(eval(a, Op::Of(xs.len() as u64))),
    decreases xs.len(),
{
    lemma_orders(a);
    lemma_constants();
    if xs.len() > 0 {
        let (init, x) = (xs.drop_last(), xs.last());
        assert(in_unit(xs[xs.len() - 1]));
        assert forall|i: int| 0 <= i < init.len() implies in_unit(#[trigger] init[i]) by {
            assert(init[i] == xs[i]);
        }
        lemma_sum_at_most_count(a, init);
        let s = sum(a, init);
        let below = eval(a, Op::Of(init.len() as u64));
        let count = eval(a, Op::Of(xs.len() as u64));
        lemma_quanta_order(s, below);
        lemma_quanta_order(x, one());
        let u = unity();
        assert(quanta(below) + u == quanta(count)) by (nonlinear_arith)
            requires
                quanta(below) == (xs.len() - 1) * u,
                quanta(count) == xs.len() * u,
        ;
        lemma_at_most(sum(a, xs), count, quanta(s) + quanta(x), 1);
    }
}

/// The scores of readings between 0 and 1 are between 0 and 1.
proof fn lemma_known_vpins(rs: Seq<VpinReading>)
    requires
        forall|i: int| 0 <= i < rs.len() ==> reading_in_unit(#[trigger] rs[i]),
    ensures
        known_vpins(rs).len() <= rs.len(),
        forall|i: int| 0 <= i < known_vpins(rs).len() ==> in_unit(#[trigger] known_vpins(rs)[i]),
    decreases rs.len(),
{
    if rs.len() > 0 {
        let init = rs.drop_last();
        assert forall|i: int| 0 <= i < init.len() implies reading_in_unit(#[trigger] init[i]) by {
            assert(init[i] == rs[i]);
        }
        assert(reading_in_unit(rs[rs.len() - 1]));
        lemma_known_vpins(init);
    }
}

/// The mean score of a configuration that scored at all lies between 0 and 1.
pub proof fn law_mean_vpin_is_in_the_unit_interval<A: Fn(Op) -> Double>(
    a: A,
    cfg: VpinEngineConfig,
    trades: Seq<Trade>,
    bvc: BvcStats,
)
    requires
        rounds(a),
        config_error(cfg) is None,
        cfg.confidence_interval matches Some(c) ==> c.bootstrap_samples <= EXACT,
        forall|k: int| 0 <= k < trades.len() ==> (#[trigger] trades[k]).volume.positive(),
        tape_stays_finite(a, cfg, trades),
        readings(a, cfg, trades).len() <= EXACT,
    ensures
        ({
            let rs = readings(a, cfg, trades);
            known_vpins(rs).len() > 0 ==> in_unit(stats_of(a, cfg, rs, bvc).vpin_mean)
        }),
{
    let rs = readings(a, cfg, trades);
    law_readings_are_in_the_unit_interval(a, cfg, trades);
    lemma_known_vpins(rs);
    lemma_sum_at_most_count(a, known_vpins(rs));
    lemma_orders(a);
}

/// The accuracy of the classification is a fraction: there are no more right
/// calls than calls.
pub proof fn law_accuracy_is_a_fraction<A: Fn(Op) -> Double>(
    a: A,
    bucket_volume: Double,
    sigma_window: nat,
    trades: Seq<Trade>,
)
    requires
        rounds(a),
        trades.len() <= u64::MAX,
    ensures
        ({
            let bvc = bvc_result(a, bvc_at(a, bucket_volume, sigma_window, trades));
            bvc.compared > 0 ==> in_unit(bvc.accuracy)
        }),
{
    lemma_bvc_at(a, bucket_volume, sigma_window, trades);
    let s = bvc_at(a, bucket_volume, sigma_window, trades);
    assert(eval(a, Op::Of(s.correct as u64)).at_most(eval(a, Op::Of(s.errors.len() as u64)))) by {
        lemma_orders(a);
    }
    lemma_orders(a);
}

/// A finite number that is not negative and has at most so many quanta.
pub open spec fn is_within(x: Double, most: nat) -> bool {
    nonnegative(x) && x.finite() && quanta(x) <= most
}

/// A sum of bounded numbers is bounded by their count times the bound.
proof fn lemma_bounded_sum<A: Fn(Op) -> Double>(a: A, xs: Seq<Double>, j: nat)
    requires
        rounds(a),
        xs.len() <= EXACT,
        j <= 2044,
        forall|i: int| 0 <= i < xs.len() ==> is_within(#[trigger] xs[i], pow2(j)),
    ensures
        is_within(sum(a, xs), xs.len() * pow2(j)),
    decreases xs.len(),
{
    lemma_constants();
    if xs.len() > 0 {
        let init = xs.drop_last();
        assert(is_within(xs[xs.len() - 1], pow2(j)));
        assert forall|i: int| 0 <= i < init.len() implies is_within(#[trigger] init[i], pow2(j)) by {
            assert(init[i] == xs[i]);
        }
        lemma_bounded_sum(a, init, j);
        lemma_bounded_add(a, sum(a, init), xs.last(), init.len(), j);
    }
}

/// One more bounded number.
proof fn lemma_bounded_add<A: Fn(Op) -> Double>(a: A, x: Double, y: Double, n: nat, j: nat)
    requires
        rounds(a),
        n < EXACT,
        j <= 2044,
        is_within(x, n * pow2(j)),
        is_within(y, pow2(j)),
    ensures
        is_within(eval(a, Op::Add(x, y)), (n + 1) * pow2(j)),
{
    let r = eval(a, Op::Add(x, y));
    let top = Double { bits: grid(n as int + 1, j) as u64 };
    lemma_constants();
    lemma_grid(n as int + 1, j);
    lemma_quanta_order(zero(), x);
    lemma_quanta_order(zero(), y);
    assert((n + 1) * pow2(j) == n * pow2(j) + pow2(j)) by (nonlinear_arith);
    lemma_at_least(r, zero(), quanta(x) + quanta(y), 1);
    lemma_at_most(r, top, quanta(x) + quanta(y), 1);
    lemma_quanta_order(r, top);
}

/// An engine after `n` trades of bounded volume.
spec fn is_bounded_engine(s: EngineState, n: nat, j: nat) -> bool {
    &&& is_fair_engine(s)
    &&& s.vpin_window <= EXACT
    &&& s.imbalances.len() <= s.vpin_window
    &&& is_within(s.bucketer.acc_volume, n * pow2(j))
    &&& all_within(s.imbalances, pow2(j + 53))
}

spec fn all_within(pairs: Seq<(Double, Double)>, bound: nat) -> bool {
    forall|i: int| 0 <= i < pairs.len() ==> is_within((#[trigger] pairs[i]).1, bound)
}

/// Fair pairs of bounded volume have a finite total imbalance.
proof fn lemma_bounded_pairs<A: Fn(Op) -> Double>(a: A, pairs: Seq<(Double, Double)>, j: nat)
    requires
        rounds(a),
        all_fair(pairs),
        all_within(pairs, pow2(j)),
        pairs.len() <= EXACT,
        j <= 2044,
    ensures
        sum(a, firsts(pairs)).finite(),
{
    let xs = firsts(pairs);
    assert forall|i: int| 0 <= i < xs.len() implies is_within(#[trigger] xs[i], pow2(j)) by {
        assert(is_fair(pairs[i]) && is_within(pairs[i].1, pow2(j)));
        lemma_quanta_order(pairs[i].0, pairs[i].1);
    }
    lemma_bounded_sum(a, xs, j);
}

/// One trade of bounded volume keeps an engine bounded and finite.
proof fn lemma_bounded_trade<A: Fn(Op) -> Double>(a: A, s: EngineState, n: nat, j: nat, t: Trade)
    requires
        rounds(a),
        is_bounded_engine(s, n, j),
        n < EXACT,
        j <= 1991,
        t.volume.positive(),
        is_within(t.volume, pow2(j)),
    ensures
        stays_finite(a, s, t.price, t.volume, t.ts_ns),
        is_bounded_engine(engine_after(a, s, t.price, t.volume, t.ts_ns), n + 1, j),
{
    let filled = filled_volume(a, s.bucketer, t.volume);
    let limit = pow2(j + 53);
    lemma_bounded_add(a, s.bucketer.acc_volume, t.volume, n, j);
    assert((n + 1) * pow2(j) <= limit) by {
        lemma_pow2_adds(j, 53);
        lemma_exact_is_a_power();
        lemma_pow2_pos(j);
        assert((n + 1) * pow2(j) <= pow2(53) * pow2(j)) by (nonlinear_arith)
            requires
                n + 1 <= pow2(53),
        ;
        assert(pow2(j) * pow2(53) == pow2(53) * pow2(j)) by (nonlinear_arith);
    }
    assert((n + 1) * pow2(j) >= 0) by (nonlinear_arith);
    lemma_constants();
    if let Some(closed) = bucket_closed(a, s.bucketer, t.price, t.volume, t.ts_ns) {
        let window = imbalances_after(a, s, closed);
        assert(closed.volume.positive()) by {
            lemma_orders(a);
            assert(t.volume.at_most(filled));
        }
        if is_classified(s.sigma.current, closed) {
            let sigma = s.sigma.current->0;
            let p = (imbalance(a, closed, sigma), closed.volume);
            law_imbalance_is_at_most_the_volume(a, closed, sigma);
            lemma_slide_fair(s.vpin_window, s.imbalances, p);
            assert forall|i: int| 0 <= i < window.len() implies is_within(
                (#[trigger] window[i]).1,
                limit,
            ) by {
                if i == window.len() - 1 {
                    assert(window[i] == p);
                } else if s.imbalances.len() == s.vpin_window {
                    assert(window[i] == s.imbalances[i + 1]);
                } else {
                    assert(window[i] == s.imbalances[i]);
                }
            }
        }
        lemma_bounded_pairs(a, window, j + 53);
        if let Some((c, rng)) = s.ci {
            assert forall|k: int| 0 <= k < c.bootstrap_samples implies sum(
                a,
                firsts(#[trigger] resample(window, state_after(rng, (k * window.len()) as nat))),
            ).finite() by {
                let start = state_after(rng, (k * window.len()) as nat);
                let drawn = resample(window, start);
                assert forall|i: int| 0 <= i < drawn.len() implies is_fair(#[trigger] drawn[i])
                    && is_within(drawn[i].1, limit) by {
                    let at = drawn_index(start, i, window.len());
                    assert(0 <= at < window.len());
                    assert(is_fair(window[at]) && is_within(window[at].1, limit));
                }
                lemma_bounded_pairs(a, drawn, j + 53);
            }
        }
    }
    lemma_trade_is_fair(a, s, t.price, t.volume, t.ts_ns);
}

pub proof fn lemma_exact_is_a_power()
    ensures
        pow2(53) == EXACT,
{
    lemma2_to64();
    lemma_pow2_adds(32, 21);
}

/// A tape whose volumes have a bound stays within the range of doubles: with
/// up to 53 bits of trades and buckets, volumes can be as large as two to the
/// 917th.
pub proof fn law_a_bounded_tape_stays_finite<A: Fn(Op) -> Double>(
    a: A,
    cfg: VpinEngineConfig,
    trades: Seq<Trade>,
    j: nat,
)
    requires
        rounds(a),
        config_error(cfg) is None,
        cfg.vpin_window <= EXACT,
        cfg.confidence_interval matches Some(c) ==> c.bootstrap_samples <= EXACT,
        trades.len() <= EXACT,
        j <= 1991,
        forall|k: int|
            0 <= k < trades.len() ==> (#[trigger] trades[k]).volume.positive() && is_within(
                trades[k].volume,
                pow2(j),
            ),
    ensures
        tape_stays_finite(a, cfg, trades),
{
    lemma_bounded_tape(a, cfg, trades, j);
}

proof fn lemma_bounded_tape<A: Fn(Op) -> Double>(
    a: A,
    cfg: VpinEngineConfig,
    trades: Seq<Trade>,
    j: nat,
)
    requires
        rounds(a),
        config_error(cfg) is None,
        cfg.vpin_window <= EXACT,
        cfg.confidence_interval matches Some(c) ==> c.bootstrap_samples <= EXACT,
        trades.len() <= EXACT,
        j <= 1991,
        forall|k: int|
            0 <= k < trades.len() ==> (#[trigger] trades[k]).volume.positive() && is_within(
                trades[k].volume,
                pow2(j),
            ),
    ensures
        tape_stays_finite(a, cfg, trades),
        is_bounded_engine(engine_at(a, cfg, trades), trades.len(), j),
    decreases trades.len(),
{
    if trades.len() == 0 {
        lemma_constants();
        assert(0 * pow2(j) == 0);
    } else {
        let init = trades.drop_last();
        let t = trades.last();
        let n = trades.len() - 1;
        assert forall|k: int| 0 <= k < init.len() implies (#[trigger] init[k]).volume.positive()
            && is_within(init[k].volume, pow2(j)) by {
            assert(init[k] == trades[k]);
        }
        lemma_bounded_tape(a, cfg, init, j);
        assert(trades[n] == t);
        lemma_bounded_trade(a, engine_at(a, cfg, init), init.len(), j, t);
        assert forall|k: int| 0 <= k < trades.len() implies stays_finite(
            a,
            engine_at(a, cfg, #[trigger] trades.take(k)),
            trades[k].price,
            trades[k].volume,
            trades[k].ts_ns,
        ) by {
            if k < n {
                assert(init.take(k) =~= trades.take(k));
                assert(init[k] == trades[k]);
            } else {
                assert(trades.take(k) =~= init);
            }
        }
    }
}

/// What a reading of a tape with bounded volumes is: its numbers lie between 0
/// and 1, with a rank above 0 and interval bounds in their order; there is no
/// score before the deviation's window and the averaging window have filled
/// up; an interval comes exactly with a score where one is configured; and a
/// rank exactly with a score once there have been enough of them.
pub proof fn law_a_bounded_tapes_readings<A: Fn(Op) -> Double>(
    a: A,
    cfg: VpinEngineConfig,
    trades: Seq<Trade>,
    j: nat,
)
    requires
        rounds(a),
        config_error(cfg) is None,
        cfg.vpin_window <= EXACT,
        cfg.confidence_interval matches Some(c) ==> c.bootstrap_samples <= EXACT,
        trades.len() <= EXACT,
        room_throughout(a, cfg.bucket_volume, trades),
        j <= 1991,
        forall|k: int|
            0 <= k < trades.len() ==> (#[trigger] trades[k]).volume.positive() && is_within(
                trades[k].volume,
                pow2(j),
            ),
    ensures
        forall|i: int|
            0 <= i < readings(a, cfg, trades).len() ==> {
                let r = #[trigger] readings(a, cfg, trades)[i];
                &&& reading_in_unit(r)
                &&& r.bucket_id + 1 < cfg.sigma_window + cfg.vpin_window ==> r.vpin is None
                &&& r.vpin_ci_low is Some <==> r.vpin is Some && cfg.confidence_interval is Some
                &&& r.vpin_ci_high is Some <==> r.vpin is Some && cfg.confidence_interval is Some
                &&& r.vpin_cdf is Some <==> is_ranked(cfg, readings(a, cfg, trades), i)
            },
{
    law_a_bounded_tape_stays_finite(a, cfg, trades, j);
    law_readings_are_in_the_unit_interval(a, cfg, trades);
    law_readings_have_their_parts_in_time(a, cfg, trades);
}

} // verus!
