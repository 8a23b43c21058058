//! How percentiles lie to each other, and the intervals of two levels.
//!
//! A percentile is read off sorted values by linear interpolation, which
//! rounds: two percentiles that would be equal exactly can come out a few
//! places apart in either direction. So the laws here that compare percentiles
//! leave a slack of two to the minus fifty, far below any score's resolution.
//! The two bounds of one interval need no slack: they are put in order.

use crate::bootstrap::{
    in_order, interpolated, interval, resampled_ratios, tail, ConfidenceIntervalConfig,
};
use crate::bounds::{
    all_fair, is_interval_config, lemma_sorted_ratios, lemma_tail, lemma_whole_monotone,
    resamples_stay_finite,
};
use crate::double::{ascending, eval, total_le, Double, Op, FRACTION, HALF, TWO};
use crate::ieee::{
    distance, in_unit, lemma_at_least, lemma_at_most, lemma_below_overflow, lemma_constants,
    lemma_error, lemma_monotone, lemma_orders, lemma_quanta_order, lemma_whole, nonnegative, one,
    quanta, rounded, rounds, unity, zero, EXACT,
};
use crate::precision::{lemma_rounded_reduced, lemma_scaled};
use vstd::arithmetic::mul::lemma_mul_is_associative;
use vstd::arithmetic::power2::{lemma_pow2_unfold, pow2};
use vstd::prelude::*;
use vstd::relations::sorted_by;

verus! {

/// Two to the minus fifty, in quanta.
pub open spec fn slack() -> int {
    pow2(1024) as int
}

/// The rank at a fraction of the way through `n` sorted values.
pub open spec fn rank_at<A: Fn(Op) -> Double>(a: A, n: nat, p: Double) -> Double {
    eval(a, Op::Mul(p, eval(a, Op::Of((n - 1) as u64))))
}

/// How far beyond its integer part a rank lies, in quanta.
pub open spec fn beyond(rank: Double) -> int {
    quanta(rank) - rank.whole() * unity()
}

/// The exact value at a rank: the line through the two nearest values, in
/// quanta times the quanta of 1.
pub open spec fn line(sorted: Seq<Double>, rank: Double) -> int {
    let lo = rank.whole() as int;
    let hi = if lo + 1 < sorted.len() {
        lo + 1
    } else {
        lo
    };
    quanta(sorted[lo]) * (unity() - beyond(rank)) + quanta(sorted[hi]) * beyond(rank)
}

/// A rank lies between 0 and the last index.
proof fn lemma_rank<A: Fn(Op) -> Double>(a: A, n: nat, p: Double)
    requires
        rounds(a),
        0 < n <= EXACT,
        in_unit(p),
    ensures
        ({
            let rank = rank_at(a, n, p);
            &&& nonnegative(rank)
            &&& rank.finite()
            &&& rank.whole() < n
            &&& 0 <= beyond(rank) < unity()
            &&& rank.whole() == n - 1 ==> beyond(rank) == 0
        }),
{
    let top = eval(a, Op::Of((n - 1) as u64));
    let rank = rank_at(a, n, p);
    lemma_orders(a);
    lemma_constants();
    lemma_whole_monotone(rank, top);
    lemma_whole(rank);
    lemma_quanta_order(rank, top);
    let (w, u) = (rank.whole() as int, unity());
    assert((w + 1) * u == w * u + u) by (nonlinear_arith);
}

/// Scaled products stay close when their factors do.
proof fn lemma_products(x: int, y: int, g: int, f: int, t: int, u: int, e: int)
    requires
        0 <= x <= u,
        0 <= y <= u,
        0 <= e,
        distance(f, t) <= e,
        distance(g, u - f) <= e,
    ensures
        distance(x * g + y * f, x * (u - t) + y * t) <= 3 * (e * u),
{
    let dg = g - (u - t);
    let df = f - t;
    assert(-2 * e <= dg <= 2 * e);
    assert(x * g + y * f == x * (u - t) + y * t + x * dg + y * df) by (nonlinear_arith)
        requires
            dg == g - (u - t),
            df == f - t,
    ;
    assert(-2 * (e * u) <= x * dg <= 2 * (e * u)) by (nonlinear_arith)
        requires
            0 <= x <= u,
            -2 * e <= dg <= 2 * e,
            0 <= e,
    ;
    assert(-(e * u) <= y * df <= e * u) by (nonlinear_arith)
        requires
            0 <= y <= u,
            -e <= df <= e,
            0 <= e,
    ;
}

/// The rounded combination of two numbers between 0 and 1 is close to the
/// exact one.
proof fn lemma_mix<A: Fn(Op) -> Double>(a: A, x: Double, y: Double, rank: Double, base: Double)
    requires
        rounds(a),
        in_unit(x),
        in_unit(y),
        rank.finite(),
        base.finite(),
        0 <= quanta(rank) - quanta(base) < unity(),
    ensures
        ({
            let f = eval(a, Op::Sub(rank, base));
            let g = eval(a, Op::Sub(one(), f));
            let r = eval(a, Op::Add(eval(a, Op::Mul(x, g)), eval(a, Op::Mul(y, f))));
            let t = quanta(rank) - quanta(base);
            &&& r.finite()
            &&& distance(
                quanta(r) * unity(),
                quanta(x) * (unity() - t) + quanta(y) * t,
            ) <= pow2(1023) * unity()
        }),
{
    lemma_constants();
    lemma_pow2_unfold(1023);
    let (u, e) = (unity(), pow2(1020) as int);
    let f = eval(a, Op::Sub(rank, base));
    let g = eval(a, Op::Sub(one(), f));
    let m = eval(a, Op::Mul(x, g));
    let n = eval(a, Op::Mul(y, f));
    let r = eval(a, Op::Add(m, n));
    let t = quanta(rank) - quanta(base);
    lemma_quanta_order(zero(), x);
    lemma_quanta_order(x, one());
    lemma_quanta_order(zero(), y);
    lemma_quanta_order(y, one());
    let (p, q) = (quanta(x), quanta(y));
    // The fraction and what it lacks to 1.
    lemma_error(f, t, 1, 1021);
    lemma_at_least(f, zero(), t, 1);
    lemma_at_most(f, one(), t, 1);
    lemma_quanta_order(zero(), f);
    lemma_quanta_order(f, one());
    let k = quanta(f);
    lemma_error(g, u - k, 1, 1021);
    lemma_at_least(g, zero(), u - k, 1);
    lemma_at_most(g, one(), u - k, 1);
    lemma_quanta_order(zero(), g);
    lemma_quanta_order(g, one());
    let h = quanta(g);
    lemma_products(p, q, h, k, t, u, e);
    // The two products.
    assert(0 <= p * h <= u * u && 0 <= q * k <= u * u) by (nonlinear_arith)
        requires
            0 <= p <= u,
            0 <= q <= u,
            0 <= h <= u,
            0 <= k <= u,
    ;
    assert(2 * FRACTION * pow2(1021) * u == u * u);
    lemma_error(m, p * h, u, 1021);
    lemma_error(n, q * k, u, 1021);
    lemma_at_least(m, zero(), p * h, u);
    lemma_at_most(m, one(), p * h, u);
    lemma_at_least(n, zero(), q * k, u);
    lemma_at_most(n, one(), q * k, u);
    lemma_quanta_order(zero(), m);
    lemma_quanta_order(m, one());
    lemma_quanta_order(zero(), n);
    lemma_quanta_order(n, one());
    let (v, w) = (quanta(m), quanta(n));
    assert(pow2(1021) * u == 2 * (e * u)) by (nonlinear_arith)
        requires
            pow2(1021) == 2 * e,
    ;
    assert(distance(v * u, p * h) <= e * u);
    assert(distance(w * u, q * k) <= e * u);
    // Their sum.
    assert(2 * FRACTION * pow2(1022) * 1 == 2 * u) by (nonlinear_arith)
        requires
            u == 2 * FRACTION * pow2(1021),
            pow2(1022) == 2 * pow2(1021),
    ;
    lemma_error(r, v + w, 1, 1022);
    let z = quanta(r);
    assert(distance(z, v + w) <= 2 * e);
    assert(-2 * (e * u) <= z * u - (v * u + w * u) <= 2 * (e * u)) by (nonlinear_arith)
        requires
            -2 * e <= z - (v + w) <= 2 * e,
            u > 0,
    ;
    assert(pow2(1023) * u == 8 * (e * u)) by (nonlinear_arith)
        requires
            pow2(1023) == 8 * e,
    ;
    assert(e * u >= 0) by (nonlinear_arith)
        requires
            e >= 0,
            u >= 0,
    ;
}

/// An interpolated value is close to the exact one.
pub proof fn lemma_near_line<A: Fn(Op) -> Double>(a: A, sorted: Seq<Double>, p: Double)
    requires
        rounds(a),
        0 < sorted.len() <= EXACT,
        forall|i: int| 0 <= i < sorted.len() ==> in_unit(#[trigger] sorted[i]),
        in_unit(p),
    ensures
        interpolated(a, sorted, p).finite(),
        distance(
            quanta(interpolated(a, sorted, p)) * unity(),
            line(sorted, rank_at(a, sorted.len(), p)),
        ) <= pow2(1023) * unity(),
{
    let rank = rank_at(a, sorted.len(), p);
    let u = unity();
    lemma_rank(a, sorted.len(), p);
    lemma_orders(a);
    lemma_constants();
    lemma_quanta_order(zero(), rank);
    let lo = rank.whole() as int;
    let base = eval(a, Op::Of(lo as u64));
    let t = beyond(rank);
    assert(quanta(base) == lo * u);
    lemma_quanta_order(base, rank);
    assert(in_unit(sorted[lo]) && in_unit(sorted[0]));
    assert(pow2(1023) * u >= 0) by (nonlinear_arith)
        requires
            u >= 0,
    ;
    if sorted.len() == 1 || !rank.positive() || base.equal(rank) {
        if !rank.positive() {
            assert(quanta(rank) == 0);
            assert(lo == 0) by (nonlinear_arith)
                requires
                    lo * u <= 0,
                    lo >= 0,
                    u > 0,
            ;
        }
        assert(t == 0);
        let hi = if lo + 1 < sorted.len() {
            lo + 1
        } else {
            lo
        };
        assert(quanta(sorted[hi]) * 0 == 0);
        assert(line(sorted, rank) == quanta(sorted[lo]) * u);
    } else {
        assert(lo + 1 < sorted.len());
        assert(in_unit(sorted[lo + 1]));
        lemma_mix(a, sorted[lo], sorted[lo + 1], rank, base);
    }
}

/// The value at a fraction of the way through a list lies on the straight line
/// between its neighbours. For the number nearest to the fraction times the last
/// index, with `lo` below or at it and one more above it, the value lies as far
/// from the entry at `lo` to the one behind it as the number lies beyond `lo`, up
/// to two to the minus 51st.
pub proof fn law_percentile_is_interpolated<A: Fn(Op) -> Double>(
    a: A,
    list: Seq<Double>,
    p: Double,
    rank: Double,
    lo: int,
)
    requires
        rounds(a),
        0 < list.len() <= EXACT,
        forall|i: int| 0 <= i < list.len() ==> in_unit(#[trigger] list[i]),
        in_unit(p),
        rounded(rank, quanta(p) * (list.len() - 1), 1),
        lo * unity() <= quanta(rank) < (lo + 1) * unity(),
    ensures
        0 <= lo < list.len(),
        interpolated(a, list, p).finite(),
        lo == list.len() - 1 ==> distance(
            quanta(interpolated(a, list, p)),
            quanta(list[lo]),
        ) <= pow2(1023),
        lo < list.len() - 1 ==> {
            let further = quanta(rank) - lo * unity();
            distance(
                quanta(interpolated(a, list, p)) * unity(),
                quanta(list[lo]) * (unity() - further) + quanta(list[lo + 1]) * further,
            ) <= pow2(1023) * unity()
        },
{
    lemma_constants();
    lemma_near_line(a, list, p);
    lemma_rank(a, list.len(), p);
    let (n, u) = (list.len() - 1, unity());
    let own = rank_at(a, list.len(), p);
    let top = eval(a, Op::Of(n as u64));
    let num = quanta(p) * n;
    assert(rounded(own, num, 1)) by {
        assert(top.finite() && quanta(top) == n * u) by {
            lemma_orders(a);
        }
        lemma_mul_is_associative(quanta(p), n, u);
        assert(1 * u == u);
        lemma_rounded_reduced(own, num, 1, u);
    }
    lemma_monotone(own, num, rank, num, 1);
    lemma_monotone(rank, num, own, num, 1);
    lemma_below_overflow(own);
    assert(rank.finite());
    lemma_quanta_order(own, rank);
    lemma_whole(own);
    let w = own.whole() as int;
    assert(w < lo + 1 && lo < w + 1) by (nonlinear_arith)
        requires
            w * u < (lo + 1) * u,
            lo * u < (w + 1) * u,
            u > 0,
    ;
    let x = quanta(interpolated(a, list, p));
    if lo == n {
        assert(beyond(own) == 0);
        let y = quanta(list[lo]);
        assert(line(list, own) == y * u) by {
            assert(y * 0 == 0);
        }
        lemma_scaled(x, y, u);
        let off = distance(x, y);
        assert(off <= pow2(1023)) by (nonlinear_arith)
            requires
                off * u <= pow2(1023) * u,
                u > 0,
        ;
    }
}

/// The exact value grows with the rank.
proof fn lemma_line_grows(sorted: Seq<Double>, r: Double, s: Double)
    requires
        sorted_by(sorted, total_le()),
        forall|i: int| 0 <= i < sorted.len() ==> in_unit(#[trigger] sorted[i]),
        nonnegative(r),
        r.at_most(s),
        s.finite(),
        s.whole() < sorted.len(),
        0 <= beyond(r) < unity(),
        0 <= beyond(s) < unity(),
        s.whole() == sorted.len() - 1 ==> beyond(s) == 0,
    ensures
        line(sorted, r) <= line(sorted, s),
{
    lemma_whole_monotone(r, s);
    lemma_quanta_order(r, s);
    let (i, k, u) = (r.whole() as int, s.whole() as int, unity());
    let (t, v) = (beyond(r), beyond(s));
    let (x, z) = (quanta(sorted[i]), quanta(sorted[k]));
    assert(in_unit(sorted[i]) && in_unit(sorted[k]));
    if k + 1 < sorted.len() {
        let w = quanta(sorted[k + 1]);
        assert(in_unit(sorted[k + 1]));
        assert(total_le()(sorted[k], sorted[k + 1]));
        lemma_quanta_order(sorted[k], sorted[k + 1]);
        assert(z * u <= z * (u - v) + w * v) by (nonlinear_arith)
            requires
                z <= w,
                0 <= v,
        ;
        if i == k {
            assert(z * (u - t) + w * t <= z * (u - v) + w * v) by (nonlinear_arith)
                requires
                    z <= w,
                    t <= v,
            ;
        }
    } else {
        assert(line(sorted, s) == z * u) by {
            assert(z * 0 == 0);
        }
        if i == k {
            assert(t == 0);
        }
    }
    if i < k {
        let y = quanta(sorted[i + 1]);
        assert(in_unit(sorted[i + 1]));
        assert(total_le()(sorted[i], sorted[i + 1]));
        lemma_quanta_order(sorted[i], sorted[i + 1]);
        assert(x * (u - t) + y * t <= y * u) by (nonlinear_arith)
            requires
                x <= y,
                t <= u,
        ;
        if i + 1 < k {
            assert(total_le()(sorted[i + 1], sorted[k]));
        }
        lemma_quanta_order(sorted[i + 1], sorted[k]);
        assert(y * u <= z * u) by (nonlinear_arith)
            requires
                y <= z,
                u >= 0,
        ;
    }
}

/// Further along sorted values there is nothing smaller, up to the slack.
pub proof fn law_percentiles_are_ordered<A: Fn(Op) -> Double>(
    a: A,
    sorted: Seq<Double>,
    p: Double,
    q: Double,
)
    requires
        rounds(a),
        0 < sorted.len() <= EXACT,
        sorted_by(sorted, total_le()),
        forall|i: int| 0 <= i < sorted.len() ==> in_unit(#[trigger] sorted[i]),
        in_unit(p),
        in_unit(q),
        p.at_most(q),
    ensures
        interpolated(a, sorted, p).finite(),
        interpolated(a, sorted, q).finite(),
        quanta(interpolated(a, sorted, p)) <= quanta(interpolated(a, sorted, q)) + slack(),
{
    let n = sorted.len();
    let top = eval(a, Op::Of((n - 1) as u64));
    let (r, s) = (rank_at(a, n, p), rank_at(a, n, q));
    let u = unity();
    lemma_constants();
    lemma_pow2_unfold(1024);
    lemma_rank(a, n, p);
    lemma_rank(a, n, q);
    assert(top.finite() && quanta(top) >= 0) by {
        lemma_orders(a);
        lemma_quanta_order(zero(), top);
    }
    lemma_quanta_order(p, q);
    assert(quanta(p) * quanta(top) <= quanta(q) * quanta(top)) by (nonlinear_arith)
        requires
            quanta(p) <= quanta(q),
            quanta(top) >= 0,
    ;
    lemma_monotone(r, quanta(p) * quanta(top), s, quanta(q) * quanta(top), u);
    lemma_line_grows(sorted, r, s);
    lemma_near_line(a, sorted, p);
    lemma_near_line(a, sorted, q);
    let (x, y) = (quanta(interpolated(a, sorted, p)), quanta(interpolated(a, sorted, q)));
    let h = pow2(1023) as int;
    assert(x * u <= y * u + 2 * (h * u));
    assert(x <= y + 2 * h) by (nonlinear_arith)
        requires
            x * u <= y * u + 2 * (h * u),
            u > 0,
    ;
}

/// The tail below an interval is at most the half, and a higher level leaves a
/// smaller one.
proof fn lemma_tails<A: Fn(Op) -> Double>(a: A, level: Double, higher: Double)
    requires
        rounds(a),
        zero().below(level),
        level.at_most(higher),
        higher.below(one()),
    ensures
        in_unit(tail(a, level)),
        in_unit(tail(a, higher)),
        tail(a, higher).at_most(tail(a, level)),
        ({
            let upper = eval(a, Op::Sub(one(), tail(a, level)));
            &&& in_unit(upper)
            &&& tail(a, level).at_most(upper)
            &&& upper.at_most(eval(a, Op::Sub(one(), tail(a, higher))))
        }),
{
    let u = unity();
    let two = Double { bits: TWO };
    let half = Double { bits: HALF };
    lemma_constants();
    lemma_tail(a, level);
    lemma_tail(a, higher);
    lemma_quanta_order(zero(), level);
    lemma_quanta_order(level, higher);
    lemma_quanta_order(higher, one());
    let (x, y) = (eval(a, Op::Sub(one(), level)), eval(a, Op::Sub(one(), higher)));
    lemma_monotone(y, u - quanta(higher), x, u - quanta(level), 1);
    lemma_at_most(x, one(), u - quanta(level), 1);
    lemma_at_least(y, zero(), u - quanta(higher), 1);
    lemma_quanta_order(zero(), y);
    lemma_quanta_order(y, x);
    lemma_quanta_order(x, one());
    let (v, w) = (tail(a, level), tail(a, higher));
    assert(quanta(y) * u <= quanta(x) * u <= quanta(half) * (2 * u)) by (nonlinear_arith)
        requires
            quanta(y) <= quanta(x) <= u,
            2 * quanta(half) == u,
            u > 0,
    ;
    lemma_monotone(w, quanta(y) * u, v, quanta(x) * u, 2 * u);
    lemma_at_most(v, half, quanta(x) * u, 2 * u);
    lemma_quanta_order(w, v);
    lemma_quanta_order(v, half);
    let (upper, wider) = (eval(a, Op::Sub(one(), v)), eval(a, Op::Sub(one(), w)));
    lemma_monotone(upper, u - quanta(v), wider, u - quanta(w), 1);
    lemma_at_least(upper, half, u - quanta(v), 1);
}

/// Of two numbers in order, the first is one of them and at most either, and the
/// second is one of them and at least either.
proof fn lemma_in_order(x: Double, y: Double)
    requires
        x.finite(),
        y.finite(),
    ensures
        in_order(x, y) == (x, y) || in_order(x, y) == (y, x),
        quanta(in_order(x, y).0) <= quanta(x),
        quanta(in_order(x, y).0) <= quanta(y),
        quanta(in_order(x, y).1) >= quanta(x),
        quanta(in_order(x, y).1) >= quanta(y),
{
    lemma_quanta_order(x, y);
    lemma_quanta_order(y, x);
}

/// A higher confidence level gives an interval that is no narrower on either
/// side, up to the slack.
pub proof fn law_a_higher_level_widens_the_interval<A: Fn(Op) -> Double>(
    a: A,
    pairs: Seq<(Double, Double)>,
    cfg: ConfidenceIntervalConfig,
    higher: Double,
    state: u64,
)
    requires
        rounds(a),
        pairs.len() > 0,
        all_fair(pairs),
        resamples_stay_finite(a, pairs, state, cfg.bootstrap_samples as nat),
        is_interval_config(cfg),
        cfg.confidence_level.at_most(higher),
        higher.below(one()),
    ensures
        ({
            let (low, high) = interval(a, pairs, cfg, state);
            let wide = ConfidenceIntervalConfig { confidence_level: higher, ..cfg };
            let (lower, upper) = interval(a, pairs, wide, state);
            &&& quanta(lower) <= quanta(low) + slack()
            &&& quanta(high) <= quanta(upper) + slack()
        }),
{
    let count = cfg.bootstrap_samples as nat;
    let level = cfg.confidence_level;
    let sorted = ascending(resampled_ratios(a, pairs, state, count));
    lemma_sorted_ratios(a, pairs, state, count);
    lemma_tails(a, level, higher);
    lemma_tails(a, higher, higher);
    let (p, q) = (tail(a, level), eval(a, Op::Sub(one(), tail(a, level))));
    let (lower, upper) = (tail(a, higher), eval(a, Op::Sub(one(), tail(a, higher))));
    law_percentiles_are_ordered(a, sorted, lower, p);
    law_percentiles_are_ordered(a, sorted, lower, q);
    law_percentiles_are_ordered(a, sorted, p, upper);
    law_percentiles_are_ordered(a, sorted, q, upper);
    lemma_in_order(interpolated(a, sorted, p), interpolated(a, sorted, q));
    lemma_in_order(interpolated(a, sorted, lower), interpolated(a, sorted, upper));
}

} // verus!
