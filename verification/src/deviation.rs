//! How far a computed sample deviation is from the real one.
//!
//! In quanta the samples are integers, and so is their real variance but for
//! its denominator. Everything here compares integers with what the rounded
//! arithmetic makes of them; `EXACT`, two to the number of bits of precision,
//! is what a relative error is counted in.

use crate::bounds::{is_within, lemma_exact_is_a_power};
use crate::double::{
    eval, mean, sample_std, squared_deviations, sum, Double, Op, FRACTION,
};
use crate::ieee::{
    distance, grid, lemma_at_least, lemma_at_most, lemma_constants, lemma_grid, lemma_orders,
    lemma_quanta_order, nonnegative, quanta, rounds, unity, zero, EXACT,
};
use crate::precision::{
    is_around, lemma_added, lemma_around, lemma_chain, lemma_chain_down,
    lemma_difference_squared, lemma_multiple, lemma_off, lemma_off_or_least, lemma_relative,
    lemma_scaled, lemma_times,
};
use crate::roots::{lemma_root_of, lemma_squares_order};
use crate::vpin::{fresh_sigma, sigma_after, SigmaState};
use crate::window::{law_a_window_holds_the_last_values, slid};
use vstd::arithmetic::mul::{
    lemma_mul_inequality, lemma_mul_is_associative, lemma_mul_is_commutative,
    lemma_mul_nonnegative,
};
use vstd::arithmetic::power2::{
    lemma2_to64, lemma_pow2_adds, lemma_pow2_pos, lemma_pow2_strictly_increases, lemma_pow2_unfold,
    pow2,
};
use vstd::prelude::*;

verus! {

/// The numbers in quanta.
pub open spec fn in_quanta(xs: Seq<Double>) -> Seq<int> {
    xs.map_values(|x: Double| quanta(x))
}

pub open spec fn total(qs: Seq<int>) -> int
    decreases qs.len(),
{
    if qs.len() == 0 {
        0
    } else {
        total(qs.drop_last()) + qs.last()
    }
}

/// The squared distances from `m`.
pub open spec fn squares_from(qs: Seq<int>, m: int) -> Seq<int> {
    qs.map_values(|q: int| (q - m) * (q - m))
}

/// The sample variance of the numbers, times their count and one less than
/// their count: so many times the sum of their squares, without the square of
/// their sum.
pub open spec fn spread(qs: Seq<int>) -> int {
    qs.len() * total(squares_from(qs, 0)) - total(qs) * total(qs)
}

/// Whether all numbers have at most so many quanta either way.
pub open spec fn all_around(xs: Seq<Double>, most: nat) -> bool {
    forall|i: int| 0 <= i < xs.len() ==> is_around(#[trigger] xs[i], most)
}

pub proof fn lemma_drop_last(xs: Seq<Double>)
    requires
        xs.len() > 0,
    ensures
        in_quanta(xs).drop_last() == in_quanta(xs.drop_last()),
        in_quanta(xs).last() == quanta(xs.last()),
{
    assert(in_quanta(xs).drop_last() =~= in_quanta(xs.drop_last()));
}

/// A computed sum is off by at most as many units of the precision as there
/// are summands, squared, of the largest summand.
proof fn lemma_sum<A: Fn(Op) -> Double>(a: A, xs: Seq<Double>, k: nat)
    requires
        rounds(a),
        xs.len() <= EXACT,
        xs.len() * pow2(k) <= pow2(2097),
        all_around(xs, pow2(k)),
    ensures
        is_around(sum(a, xs), xs.len() * pow2(k)),
        EXACT * distance(quanta(sum(a, xs)), total(in_quanta(xs))) <= xs.len() * xs.len() * pow2(k),
    decreases xs.len(),
{
    lemma_constants();
    if xs.len() == 0 {
        assert(EXACT * 0 == 0 && 0 * pow2(k) == 0);
    } else {
        let (init, x) = (xs.drop_last(), xs.last());
        assert forall|i: int| 0 <= i < init.len() implies is_around(
            #[trigger] init[i],
            pow2(k),
        ) by {
            assert(init[i] == xs[i]);
        }
        assert(is_around(xs[xs.len() - 1], pow2(k)));
        let (n, b) = (xs.len() as int, pow2(k) as int);
        assert(n * b == (n - 1) * b + b) by (nonlinear_arith);
        lemma_sum(a, init, k);
        lemma_drop_last(xs);
        let s = sum(a, init);
        let r = sum(a, xs);
        let num = quanta(s) + quanta(x);
        let top = lemma_multiple(n, k);
        lemma_around(r, num, 1, top);
        lemma_relative(r, num, 1);
        let p = EXACT as int;
        let (t, c) = (total(in_quanta(xs)), total(in_quanta(init)));
        assert(p * distance(quanta(r), t) <= p * distance(quanta(r), num) + p * distance(
            quanta(s),
            c,
        )) by (nonlinear_arith)
            requires
                distance(quanta(r), t) <= distance(quanta(r), num) + distance(quanta(s), c),
                p > 0,
        ;
        assert(n * b + (n - 1) * (n - 1) * b <= n * n * b) by (nonlinear_arith)
            requires
                n >= 1,
                b >= 0,
        ;
    }
}

/// The computed mean lies within the bound on the samples, and so many times it
/// are the samples' sum, up to twice the count squared units of the precision
/// of the bound.
proof fn lemma_mean<A: Fn(Op) -> Double>(a: A, xs: Seq<Double>, k: nat)
    requires
        rounds(a),
        2 <= xs.len() <= EXACT,
        53 <= k,
        xs.len() * pow2(k) <= pow2(2097),
        all_around(xs, pow2(k)),
    ensures
        is_around(mean(a, xs), pow2(k)),
        EXACT * distance(xs.len() * quanta(mean(a, xs)), total(in_quanta(xs))) <= 2 * xs.len()
            * xs.len() * pow2(k),
{
    lemma_orders(a);
    lemma_constants();
    lemma_sum(a, xs, k);
    let count = eval(a, Op::Of(xs.len() as u64));
    let (w, u, b, p) = (xs.len() as int, unity(), pow2(k) as int, EXACT as int);
    let s = quanta(sum(a, xs));
    let m = mean(a, xs);
    let q = quanta(m);
    let den = quanta(count);
    assert(den == w * u);
    assert(den > 0) by (nonlinear_arith)
        requires
            den == w * u,
            w > 0,
            u > 0,
    ;
    lemma_pow2_pos(k);
    assert(1 * b <= w * b && 1 * b == b) by (nonlinear_arith)
        requires
            w > 0,
            b > 0,
    ;
    assert(-(b * den) <= s * u <= b * den) by (nonlinear_arith)
        requires
            -(w * b) <= s <= w * b,
            den == w * u,
            u > 0,
    ;
    let top = lemma_multiple(1, k);
    lemma_around(m, s * u, den, top);
    lemma_relative(m, s * u, den);
    // Divided by unity.
    assert(2 * (p * distance(w * q, s)) <= 2 * distance(s, 0) + p * w) by {
        let (d, z) = (distance(w * q, s), distance(s, 0));
        assert(q * den == (w * q) * u) by (nonlinear_arith)
            requires
                den == w * u,
        ;
        assert(distance((w * q) * u, s * u) == d * u && distance(s * u, 0) == z * u) by {
            lemma_scaled(w * q, s, u);
            lemma_scaled(s, 0, u);
            assert(0 * u == 0) by (nonlinear_arith);
        }
        assert(2 * (p * d) <= 2 * z + p * w) by (nonlinear_arith)
            requires
                2 * (p * (d * u)) <= 2 * (z * u) + p * (w * u),
                u > 0,
        ;
    }
    lemma_exact_is_a_power();
    if k > 53 {
        lemma_pow2_strictly_increases(53, k);
    }
    assert(p <= b);
    let t = total(in_quanta(xs));
    assert(p * distance(w * q, t) <= p * distance(w * q, s) + p * distance(s, t))
        by (nonlinear_arith)
        requires
            distance(w * q, t) <= distance(w * q, s) + distance(s, t),
            p > 0,
    ;
    assert(p * w <= w * b) by (nonlinear_arith)
        requires
            p <= b,
            w > 0,
    ;
    assert(2 * (w * w * b) + 3 * (w * b) <= 4 * (w * w * b)) by (nonlinear_arith)
        requires
            w >= 2,
            b >= 0,
    ;
    assert(2 * w * w * b == 2 * (w * w * b)) by (nonlinear_arith);
}

/// One squared deviation: not negative, and no larger than the square of twice
/// the bound.
proof fn lemma_square_bound<A: Fn(Op) -> Double>(a: A, x: Double, m: Double, k: nat)
    requires
        rounds(a),
        2 * pow2(k) <= pow2(2097),
        is_around(x, pow2(k)),
        is_around(m, pow2(k)),
    ensures
        ({
            let d = eval(a, Op::Sub(x, m));
            &&& d.finite()
            &&& 0 <= quanta(d) * quanta(d) <= pow2(2 * k + 2)
            &&& nonnegative(eval(a, Op::Mul(d, d)))
        }),
{
    lemma_constants();
    let d = eval(a, Op::Sub(x, m));
    let g = quanta(x) - quanta(m);
    let (b, e) = (pow2(k) as int, quanta(d));
    let top = lemma_multiple(2, k);
    lemma_around(d, g, 1, top);
    lemma_pow2_unfold(k + 1);
    lemma_pow2_adds(k + 1, k + 1);
    assert(e * e <= (2 * b) * (2 * b) && 0 <= e * e) by (nonlinear_arith)
        requires
            -(2 * b) <= e <= 2 * b,
    ;
    lemma_at_least(eval(a, Op::Mul(d, d)), zero(), e * e, unity());
}

/// One squared deviation that is finite: up to four units of the precision and
/// one quantum the square of the distance from the mean.
#[verifier::rlimit(30)]
proof fn lemma_square<A: Fn(Op) -> Double>(a: A, x: Double, m: Double, k: nat)
    requires
        rounds(a),
        2 * pow2(k) <= pow2(2097),
        is_around(x, pow2(k)),
        is_around(m, pow2(k)),
        ({
            let d = eval(a, Op::Sub(x, m));
            eval(a, Op::Mul(d, d)).finite()
        }),
    ensures
        ({
            let d = eval(a, Op::Sub(x, m));
            let y = eval(a, Op::Mul(d, d));
            let g = quanta(x) - quanta(m);
            &&& EXACT * (quanta(y) * unity()) <= (EXACT + 5) * (g * g + unity())
            &&& (EXACT - 3) * (g * g) <= EXACT * (quanta(y) * unity() + unity())
        }),
{
    lemma_constants();
    lemma_square_bound(a, x, m, k);
    let d = eval(a, Op::Sub(x, m));
    let y = eval(a, Op::Mul(d, d));
    let g = quanta(x) - quanta(m);
    let (p, u, e) = (EXACT as int, unity(), quanta(d));
    lemma_relative(d, g, 1);
    lemma_relative(y, e * e, u);
    lemma_quanta_order(zero(), y);
    // From the difference to its square, and to the computed square.
    lemma_difference_squared(p, e, g);
    let (h, z) = (e * e, quanta(y) * u);
    lemma_off_or_least(p, z, h, u);
    assert(p * (h + u) <= (p + 3) * (g * g + u)) by (nonlinear_arith)
        requires
            p * h <= (p + 3) * (g * g),
            u > 0,
    ;
    assert(g * g >= 0) by (nonlinear_arith);
    lemma_chain(p, z, h + u, g * g + u, 1, 3);
    lemma_chain_down(p, z + u, h, g * g, 1, 2);
}

/// The squared deviations together, if they are finite.
proof fn lemma_squares<A: Fn(Op) -> Double>(a: A, xs: Seq<Double>, m: Double, k: nat)
    requires
        rounds(a),
        2 * pow2(k) <= pow2(2097),
        all_around(xs, pow2(k)),
        is_around(m, pow2(k)),
        forall|i: int|
            0 <= i < xs.len() ==> (#[trigger] squared_deviations(a, xs, m)[i]).finite(),
    ensures
        ({
            let ys = squared_deviations(a, xs, m);
            let y = total(in_quanta(ys)) * unity();
            let x = total(squares_from(in_quanta(xs), quanta(m)));
            let slack = xs.len() * unity();
            &&& x >= 0
            &&& EXACT * y <= (EXACT + 5) * (x + slack)
            &&& (EXACT - 3) * x <= EXACT * (y + slack)
        }),
    decreases xs.len(),
{
    let ys = squared_deviations(a, xs, m);
    let (p, u) = (EXACT as int, unity());
    if xs.len() == 0 {
        assert(0 * u == 0) by (nonlinear_arith);
    } else {
        let init = xs.drop_last();
        assert forall|i: int| 0 <= i < init.len() implies is_around(
            #[trigger] init[i],
            pow2(k),
        ) by {
            assert(init[i] == xs[i]);
        }
        assert(is_around(xs[xs.len() - 1], pow2(k)));
        let before = squared_deviations(a, init, m);
        assert(ys.drop_last() =~= before);
        assert forall|i: int| 0 <= i < init.len() implies (#[trigger] before[i]).finite() by {
            assert(before[i] == ys[i]);
        }
        assert(ys[xs.len() - 1].finite());
        lemma_squares(a, init, m, k);
        lemma_square(a, xs.last(), m, k);
        lemma_drop_last(xs);
        lemma_drop_last(ys);
        let (c, q) = (quanta(m), quanta(xs.last()));
        assert(squares_from(in_quanta(xs), c).drop_last() =~= squares_from(in_quanta(init), c));
        assert(squares_from(in_quanta(xs), c).last() == (q - c) * (q - c));
        let n = init.len() as int;
        let (y, z) = (total(in_quanta(before)), quanta(ys.last()));
        let (x, g) = (total(squares_from(in_quanta(init), c)), (q - c) * (q - c));
        assert(g >= 0) by (nonlinear_arith)
            requires
                g == (q - c) * (q - c),
        ;
        assert((y + z) * u == y * u + z * u && (n + 1) * u == n * u + u) by (nonlinear_arith);
        lemma_added(p, p + 5, y * u, x + n * u, z * u, g + u);
        lemma_added(p - 3, p, x, y * u + n * u, g, z * u + u);
    }
}

/// A sum of numbers that are not negative is not negative, and is finite only
/// if they all are.
pub proof fn lemma_summands<A: Fn(Op) -> Double>(a: A, ys: Seq<Double>)
    requires
        rounds(a),
        forall|i: int| 0 <= i < ys.len() ==> nonnegative(#[trigger] ys[i]),
    ensures
        nonnegative(sum(a, ys)),
        sum(a, ys).finite() ==> forall|i: int| 0 <= i < ys.len() ==> (#[trigger] ys[i]).finite(),
        sum(a, ys).finite() && ys.len() > 0 ==> sum(a, ys.drop_last()).finite(),
    decreases ys.len(),
{
    lemma_orders(a);
    if ys.len() > 0 {
        let init = ys.drop_last();
        assert forall|i: int| 0 <= i < init.len() implies nonnegative(#[trigger] init[i]) by {
            assert(init[i] == ys[i]);
        }
        assert(nonnegative(ys[ys.len() - 1]));
        lemma_summands(a, init);
        let (s, y) = (sum(a, init), ys.last());
        assert(s.at_most(eval(a, Op::Add(s, y))) && y.at_most(eval(a, Op::Add(s, y))));
        if sum(a, ys).finite() {
            assert forall|i: int| 0 <= i < ys.len() implies (#[trigger] ys[i]).finite() by {
                if i < init.len() {
                    assert(init[i].finite());
                }
            }
        }
    }
}

/// A computed sum of numbers that are not negative is off by at most two units
/// of the precision for each, if it is finite.
pub proof fn lemma_sum_up<A: Fn(Op) -> Double>(a: A, ys: Seq<Double>)
    requires
        rounds(a),
        16 * ys.len() <= EXACT,
        forall|i: int| 0 <= i < ys.len() ==> nonnegative(#[trigger] ys[i]),
        sum(a, ys).finite(),
    ensures
        total(in_quanta(ys)) >= 0,
        quanta(sum(a, ys)) >= 0,
        EXACT * quanta(sum(a, ys)) <= (EXACT + 2 * ys.len()) * total(in_quanta(ys)),
        (EXACT - 2 * ys.len()) * total(in_quanta(ys)) <= EXACT * quanta(sum(a, ys)),
    decreases ys.len(),
{
    lemma_constants();
    lemma_summands(a, ys);
    lemma_quanta_order(zero(), sum(a, ys));
    if ys.len() > 0 {
        let init = ys.drop_last();
        assert forall|i: int| 0 <= i < init.len() implies nonnegative(#[trigger] init[i]) by {
            assert(init[i] == ys[i]);
        }
        assert(nonnegative(ys[ys.len() - 1]) && ys[ys.len() - 1].finite());
        lemma_sum_up(a, init);
        lemma_drop_last(ys);
        lemma_quanta_order(zero(), ys.last());
        let (p, n) = (EXACT as int, ys.len() as int);
        let (s, y, r) = (quanta(sum(a, init)), quanta(ys.last()), quanta(sum(a, ys)));
        let c = total(in_quanta(init));
        lemma_relative(sum(a, ys), s + y, 1);
        let off = distance(r, s + y);
        lemma_off(p, r, s + y, off);
        let m = 2 * (n - 1);
        lemma_mul_inequality(p - m, p, y);
        lemma_mul_inequality(p, p + m, y);
        lemma_added(p, p + m, s, c, y, y);
        lemma_added(p - m, p, c, s, y, y);
        lemma_chain(p, r, s + y, c + y, 1, m);
        lemma_chain_down(p, r, s + y, c + y, 1, m);
        lemma_mul_inequality(p - 2 * n, p - 1 - m, c + y);
    }
}

/// The squared distances from any point make up the spread and the square of
/// what the point is off by.
proof fn lemma_spread(qs: Seq<int>, m: int)
    ensures
        qs.len() * total(squares_from(qs, m)) == spread(qs) + (total(qs) - qs.len() * m) * (total(
            qs,
        ) - qs.len() * m),
{
    lemma_squares_expand(qs, m);
    let (w, x, s) = (qs.len() as int, total(squares_from(qs, 0)), total(qs));
    assert(w * (x - 2 * m * s + w * (m * m)) == (w * x - s * s) + (s - w * m) * (s - w * m))
        by (nonlinear_arith);
}

proof fn lemma_squares_expand(qs: Seq<int>, m: int)
    ensures
        total(squares_from(qs, m)) == total(squares_from(qs, 0)) - 2 * m * total(qs) + qs.len() * (m
            * m),
    decreases qs.len(),
{
    if qs.len() == 0 {
        assert(2 * m * 0 == 0 && 0 * (m * m) == 0) by (nonlinear_arith);
    } else {
        let init = qs.drop_last();
        let q = qs.last();
        lemma_squares_expand(init, m);
        assert(squares_from(qs, m).drop_last() =~= squares_from(init, m));
        assert(squares_from(qs, 0).drop_last() =~= squares_from(init, 0));
        let (s, n) = (total(init), init.len() as int);
        assert((q - m) * (q - m) == (q - 0) * (q - 0) - 2 * m * q + m * m && 2 * m * (s + q) == 2 * m
            * s + 2 * m * q && (n + 1) * (m * m) == n * (m * m) + m * m) by (nonlinear_arith);
    }
}

/// From the squared distances to the computed variance, from above: `y` are
/// the computed squares, `t` their computed sum, `v` the variance and `r` the
/// square of its root, each in the unit of a product.
proof fn lemma_up(p: int, w: int, x: int, u: int, y: int, t: int, v: int, r: int)
    requires
        w >= 2,
        16 * w <= p,
        p >= 1000,
        x >= 0,
        u > 0,
        p * y <= (p + 5) * (x + w * u),
        p * t <= (p + 2 * w) * y,
        p * v <= (p + 1) * (t + (w - 1) * u),
        p * r <= (p + 5) * v,
    ensures
        p * r <= (p + 2 * w + 14) * (x + w * u + (w - 1) * u),
{
    let (all, less) = (w * u, (w - 1) * u);
    lemma_mul_nonnegative(w, u);
    lemma_mul_nonnegative(w - 1, u);
    lemma_chain(p, t, y, x + all, 2 * w, 5);
    lemma_mul_inequality(p, p + 2 * w + 6, less);
    lemma_added(p, p + 2 * w + 6, t, x + all, less, less);
    lemma_chain(p, v, t + less, x + all + less, 1, 2 * w + 6);
    lemma_chain(p, r, v, x + all + less, 5, 2 * w + 8);
}

/// The same from below.
proof fn lemma_down(p: int, w: int, x: int, u: int, y: int, t: int, v: int, r: int)
    requires
        w >= 2,
        16 * w <= p,
        p >= 1000,
        x >= 0,
        u > 0,
        (p - 3) * x <= p * (y + w * u),
        (p - 2 * w) * y <= p * t,
        (p - 1) * t <= p * (v + (w - 1) * u),
        (p - 4) * v <= p * r,
    ensures
        (p - 2 * w - 14) * x <= p * (r + w * u + (w - 1) * u),
{
    let (all, less) = (w * u, (w - 1) * u);
    lemma_mul_nonnegative(w, u);
    lemma_mul_nonnegative(w - 1, u);
    lemma_mul_inequality(p - 2 * w, p, all);
    lemma_added(p - 2 * w, p, y, t, all, all);
    lemma_chain_down(p, t + all, y + all, x, 2 * w, 3);
    lemma_mul_inequality(p - 1, p, all);
    lemma_added(p - 1, p, t, v + less, all, all);
    lemma_chain_down(p, v + less + all, t + all, x, 1, 2 * w + 3);
    lemma_mul_inequality(p - 4, p, less + all);
    lemma_added(p - 4, p, v, r, less + all, less + all);
    lemma_chain_down(p, r + (less + all), v + (less + all), x, 4, 2 * w + 4);
    lemma_mul_inequality(p - 2 * w - 14, p - 2 * w - 8, x);
}

/// Whether the squared deviations of the numbers add up to something finite.
pub open spec fn squares_fit<A: Fn(Op) -> Double>(a: A, xs: Seq<Double>) -> bool {
    sum(a, squared_deviations(a, xs, mean(a, xs))).finite()
}

proof fn lemma_squares_nonnegative<A: Fn(Op) -> Double>(a: A, xs: Seq<Double>, m: Double, k: nat)
    requires
        rounds(a),
        2 * pow2(k) <= pow2(2097),
        all_around(xs, pow2(k)),
        is_around(m, pow2(k)),
    ensures
        forall|i: int|
            0 <= i < xs.len() ==> nonnegative(#[trigger] squared_deviations(a, xs, m)[i]),
{
    assert forall|i: int| 0 <= i < xs.len() implies nonnegative(
        #[trigger] squared_deviations(a, xs, m)[i],
    ) by {
        assert(is_around(xs[i], pow2(k)));
        lemma_square_bound(a, xs[i], m, k);
    }
}

/// The computed variance over the count without one, and its root, against the
/// squared distances from the computed mean.
#[verifier::rlimit(40)]
proof fn lemma_variance<A: Fn(Op) -> Double>(a: A, xs: Seq<Double>, k: nat)
    requires
        rounds(a),
        2 <= xs.len(),
        16 * xs.len() <= EXACT,
        53 <= k,
        xs.len() * pow2(k) <= pow2(2097),
        all_around(xs, pow2(k)),
        squares_fit(a, xs),
    ensures
        ({
            let w = xs.len() as int;
            let r = quanta(sample_std(a, xs));
            let x = total(squares_from(in_quanta(xs), quanta(mean(a, xs))));
            let slack = w * unity() + (w - 1) * unity();
            &&& sample_std(a, xs).finite()
            &&& nonnegative(sample_std(a, xs))
            &&& x >= 0
            &&& EXACT * ((r * r) * (w - 1)) <= (EXACT + 2 * w + 14) * (x + slack)
            &&& (EXACT - 2 * w - 14) * x <= EXACT * ((r * r) * (w - 1) + slack)
        }),
{
    lemma_constants();
    let m = mean(a, xs);
    lemma_mean(a, xs, k);
    let ys = squared_deviations(a, xs, m);
    lemma_mul_inequality(2, xs.len() as int, pow2(k) as int);
    lemma_squares_nonnegative(a, xs, m, k);
    lemma_summands(a, ys);
    lemma_squares(a, xs, m, k);
    lemma_sum_up(a, ys);
    let (w, u, p) = (xs.len() as int, unity(), EXACT as int);
    let x = total(squares_from(in_quanta(xs), quanta(m)));
    let (y, t) = (total(in_quanta(ys)), quanta(sum(a, ys)));
    let below = eval(a, Op::Of((xs.len() - 1) as u64));
    let variance = eval(a, Op::Div(sum(a, ys), below));
    let v = quanta(variance);
    let den = (w - 1) * u;
    assert(below.finite() && quanta(below) == den) by {
        lemma_orders(a);
    }
    lemma_mul_inequality(1, w - 1, u);
    lemma_quanta_order(below, zero());
    lemma_mul_nonnegative(t, u);
    lemma_mul_inequality(u, den, t);
    lemma_mul_is_commutative(u, t);
    lemma_mul_is_commutative(den, t);
    lemma_at_least(variance, zero(), t * u, den);
    lemma_at_most(variance, sum(a, ys), t * u, den);
    lemma_relative(variance, t * u, den);
    lemma_off_or_least(p, v * den, t * u, den);
    lemma_root_of(a, variance);
    let r = quanta(sample_std(a, xs));
    let product = v * den;
    assert(product == (v * u) * (w - 1)) by (nonlinear_arith)
        requires
            product == v * den,
            den == (w - 1) * u,
    ;
    lemma_times(p, t, p + 2 * w, y, u);
    lemma_times(p - 2 * w, y, p, t, u);
    lemma_times(p, r * r, p + 5, v * u, w - 1);
    lemma_times(p - 4, v * u, p, r * r, w - 1);
    lemma_up(p, w, x, u, y * u, t * u, product, (r * r) * (w - 1));
    lemma_down(p, w, x, u, y * u, t * u, product, (r * r) * (w - 1));
}

/// Whether `sigma` is the sample deviation of the numbers, which have at most
/// two to the `k` quanta, up to rounding. The square of `sigma`, times the
/// count and one less than it, is the spread; up to a relative error of twice
/// the count and 14 units of the precision; up to the square of what the mean
/// can be off by, twice the count units of the precision of the largest number;
/// and up to what squares lose by underflow, the smallest number twice the
/// count squared times.
pub open spec fn is_deviation(sigma: Double, xs: Seq<Double>, k: nat) -> bool {
    let w = xs.len() as int;
    let square = w * (w - 1) * (quanta(sigma) * quanta(sigma));
    let off = 2 * w * w * pow2((k - 53) as nat);
    let least = 2 * w * w * unity();
    &&& sigma.finite()
    &&& nonnegative(sigma)
    &&& EXACT * square <= (EXACT + 2 * w + 14) * (spread(in_quanta(xs)) + off * off + least)
    &&& (EXACT - 2 * w - 14) * spread(in_quanta(xs)) <= EXACT * (square + least)
}

/// A computed sample deviation is the real one up to rounding, as long as the
/// squares that it is computed from add up to something finite.
pub proof fn law_deviation_is_close<A: Fn(Op) -> Double>(a: A, xs: Seq<Double>, k: nat)
    requires
        rounds(a),
        2 <= xs.len(),
        16 * xs.len() <= EXACT,
        53 <= k,
        xs.len() * pow2(k) <= pow2(2097),
        all_around(xs, pow2(k)),
        squares_fit(a, xs),
    ensures
        is_deviation(sample_std(a, xs), xs, k),
{
    lemma_variance(a, xs, k);
    lemma_mean(a, xs, k);
    lemma_constants();
    let qs = in_quanta(xs);
    let m = quanta(mean(a, xs));
    lemma_spread(qs, m);
    let (w, u, p) = (xs.len() as int, unity(), EXACT as int);
    let (s, x) = (spread(qs), total(squares_from(qs, m)));
    let r = quanta(sample_std(a, xs));
    let delta = total(qs) - w * m;
    let b = pow2((k - 53) as nat) as int;
    let off = 2 * w * w * b;
    assert(-off <= delta <= off) by {
        lemma_exact_is_a_power();
        lemma_pow2_adds(53, (k - 53) as nat);
        let d = distance(w * m, total(qs));
        assert(2 * w * w * (p * b) == p * off) by (nonlinear_arith)
            requires
                off == 2 * w * w * b,
        ;
        assert(d <= off) by (nonlinear_arith)
            requires
                p * d <= p * off,
                p > 0,
        ;
    }
    let e = distance(delta, 0);
    assert(delta * delta == e * e) by (nonlinear_arith)
        requires
            e == delta || e == -delta,
    ;
    lemma_squares_order(e, off);
    let slack = w * u + (w - 1) * u;
    let least = 2 * w * w * u;
    assert(w * slack <= least) by (nonlinear_arith)
        requires
            slack == w * u + (w - 1) * u,
            least == 2 * w * w * u,
            w > 0,
            u > 0,
    ;
    let square = w * (w - 1) * (r * r);
    let part = (r * r) * (w - 1);
    assert(part * w == square) by (nonlinear_arith)
        requires
            part == (r * r) * (w - 1),
            square == w * (w - 1) * (r * r),
    ;
    let c = 2 * w + 14;
    lemma_times(p, part, p + c, x + slack, w);
    assert((x + slack) * w == w * x + w * slack) by (nonlinear_arith);
    lemma_mul_inequality((x + slack) * w, s + off * off + least, p + c);
    lemma_mul_is_commutative((x + slack) * w, p + c);
    lemma_mul_is_commutative(s + off * off + least, p + c);
    lemma_times(p - c, x, p, part + slack, w);
    assert((part + slack) * w == square + w * slack && x * w == w * x) by (nonlinear_arith)
        requires
            part * w == square,
    ;
    lemma_mul_inequality(s, x * w, p - c);
    lemma_mul_is_commutative(s, p - c);
    lemma_mul_is_commutative(x * w, p - c);
    lemma_mul_inequality(square + w * slack, square + least, p);
    lemma_mul_is_commutative(square + w * slack, p);
    lemma_mul_is_commutative(square + least, p);
}

/// Numbers that have a bound have squares that add up to something finite. A
/// number and the mean are at most twice the bound apart; so many squares of
/// that have to stay within two to the 1023rd, which is two to the 3171st in
/// quanta and the unit of a product. Two numbers can be as large as two to the
/// 510th.
pub proof fn law_squares_of_bounded_numbers_fit<A: Fn(Op) -> Double>(
    a: A,
    xs: Seq<Double>,
    k: nat,
)
    requires
        rounds(a),
        2 <= xs.len(),
        16 * xs.len() <= EXACT,
        53 <= k,
        xs.len() * pow2(2 * k + 2) <= pow2(3171),
        all_around(xs, pow2(k)),
    ensures
        squares_fit(a, xs),
{
    assert(xs.len() * pow2(k) <= pow2(2097)) by {
        let w = xs.len() as int;
        lemma_pow2_pos(2 * k + 2);
        lemma_mul_inequality(2, w, pow2(2 * k + 2) as int);
        lemma_pow2_unfold(2 * k + 3);
        if k > 1584 {
            lemma_pow2_strictly_increases(3171, 2 * k + 3);
        }
        lemma_pow2_adds(49, 1584);
        lemma_pow2_strictly_increases(1633, 2097);
        if k < 1584 {
            lemma_pow2_strictly_increases(k, 1584);
        }
        lemma2_to64();
        lemma_pow2_adds(32, 17);
        assert(w * pow2(k) <= pow2(49) * pow2(1584)) by (nonlinear_arith)
            requires
                0 <= w <= pow2(49),
                pow2(k) <= pow2(1584),
        ;
    }
    lemma_mul_inequality(2, xs.len() as int, pow2(k) as int);
    let m = mean(a, xs);
    lemma_mean(a, xs, k);
    let ys = squared_deviations(a, xs, m);
    let e = (2 * k + 2) as nat;
    // The largest square is `c` steps of a grid, and all of them together still
    // fit the precision.
    let (c, j): (nat, nat) = if e > 3118 {
        (pow2((e - 3118) as nat), 2044)
    } else if e > 1074 {
        (1, (e - 1074) as nat)
    } else {
        (1, 0)
    };
    assert(pow2(e) <= c * pow2(j) * unity()) by {
        lemma2_to64();
        if e > 3118 {
            lemma_pow2_adds((e - 3118) as nat, 2044);
            lemma_pow2_adds((e - 1074) as nat, 1074);
        } else if e > 1074 {
            lemma_pow2_adds(j, 1074);
            assert(1 * pow2(j) == pow2(j));
        } else {
            if e < 1074 {
                lemma_pow2_strictly_increases(e, 1074);
            }
            assert(1 * pow2(0) == 1);
            assert(1 * unity() == unity());
        }
    }
    assert(xs.len() * c <= 2 * FRACTION) by {
        lemma_exact_is_a_power();
        if e > 3118 {
            let (w, b) = (xs.len() as int, pow2(3118) as int);
            lemma_pow2_adds((e - 3118) as nat, 3118);
            lemma_pow2_adds(53, 3118);
            lemma_pow2_pos(3118);
            lemma_mul_is_associative(w, c as int, b);
            assert(w * c <= pow2(53)) by (nonlinear_arith)
                requires
                    (w * c) * b <= pow2(53) * b,
                    b > 0,
            ;
        }
    }
    assert forall|i: int| 0 <= i < ys.len() implies is_within(
        #[trigger] ys[i],
        c * pow2(j),
    ) by {
        let d = eval(a, Op::Sub(xs[i], m));
        let top = Double { bits: grid(c as int, j) as u64 };
        assert(is_around(xs[i], pow2(k)));
        lemma_square_bound(a, xs[i], m, k);
        lemma_constants();
        assert(c <= 2 * FRACTION) by {
            lemma_mul_inequality(1, xs.len() as int, c as int);
        }
        lemma_grid(c as int, j);
        lemma_at_most(ys[i], top, quanta(d) * quanta(d), unity());
        lemma_quanta_order(ys[i], top);
    }
    lemma_sum_fits(a, ys, c, j);
}

/// A sum of bounded numbers is finite as long as the bounds add up to a number.
proof fn lemma_sum_fits<A: Fn(Op) -> Double>(a: A, ys: Seq<Double>, c: nat, j: nat)
    requires
        rounds(a),
        ys.len() * c <= 2 * FRACTION,
        j <= 2044,
        forall|i: int| 0 <= i < ys.len() ==> is_within(#[trigger] ys[i], c * pow2(j)),
    ensures
        is_within(sum(a, ys), ys.len() * c * pow2(j)),
    decreases ys.len(),
{
    lemma_constants();
    if ys.len() == 0 {
        assert(0 * c * pow2(j) == 0) by (nonlinear_arith);
    } else {
        let init = ys.drop_last();
        let (n, b) = (ys.len() as int, pow2(j) as int);
        assert(init.len() * c <= 2 * FRACTION) by {
            lemma_mul_inequality(n - 1, n, c as int);
        }
        assert forall|i: int| 0 <= i < init.len() implies is_within(
            #[trigger] init[i],
            c * pow2(j),
        ) by {
            assert(init[i] == ys[i]);
        }
        assert(is_within(ys[ys.len() - 1], c * pow2(j)));
        lemma_sum_fits(a, init, c, j);
        let (s, y) = (sum(a, init), ys.last());
        lemma_quanta_order(zero(), s);
        lemma_quanta_order(zero(), y);
        let most = n * c;
        lemma_mul_nonnegative(n, c as int);
        assert(most * b == (n - 1) * c * b + c * b) by (nonlinear_arith)
            requires
                most == n * c,
        ;
        lemma_grid(most, j);
        let top = Double { bits: grid(most, j) as u64 };
        lemma_around(sum(a, ys), quanta(s) + quanta(y), 1, top);
        lemma_at_least(sum(a, ys), zero(), quanta(s) + quanta(y), 1);
    }
}

/// A rolling deviation after all of `xs` have been pushed into it.
pub open spec fn sigma_at<A: Fn(Op) -> Double>(a: A, window: nat, xs: Seq<Double>) -> SigmaState
    decreases xs.len(),
{
    if xs.len() == 0 {
        fresh_sigma(window)
    } else {
        sigma_after(a, sigma_at(a, window, xs.drop_last()), xs.last())
    }
}

/// A rolling deviation is there once as many changes as fill its window have
/// come in, and is computed from exactly the last so many of them.
pub proof fn law_rolling_deviation_is_of_the_last_changes<A: Fn(Op) -> Double>(
    a: A,
    window: nat,
    xs: Seq<Double>,
)
    requires
        window >= 1,
    ensures
        sigma_at(a, window, xs).window == window,
        sigma_at(a, window, xs).samples == slid(window, xs),
        sigma_at(a, window, xs).current == (if xs.len() >= window {
            Some(sample_std(a, xs.skip(xs.len() - window)))
        } else {
            None
        }),
    decreases xs.len(),
{
    law_a_window_holds_the_last_values(window, xs);
    if xs.len() >= window {
        assert(slid(window, xs) =~= xs.skip(xs.len() - window));
    }
    if xs.len() > 0 {
        law_rolling_deviation_is_of_the_last_changes(a, window, xs.drop_last());
    }
}

/// A rolling deviation is the sample deviation of exactly the last changes that
/// fill its window, up to rounding, as long as their squares add up to
/// something finite.
pub proof fn law_rolling_deviation_is_close<A: Fn(Op) -> Double>(
    a: A,
    window: nat,
    xs: Seq<Double>,
    k: nat,
)
    requires
        rounds(a),
        2 <= window,
        16 * window <= EXACT,
        53 <= k,
        window * pow2(k) <= pow2(2097),
        xs.len() >= window ==> {
            let last = xs.skip(xs.len() - window);
            all_around(last, pow2(k)) && squares_fit(a, last)
        },
    ensures
        sigma_at(a, window, xs).current is Some <==> xs.len() >= window,
        sigma_at(a, window, xs).current matches Some(sigma) ==> is_deviation(
            sigma,
            xs.skip(xs.len() - window),
            k,
        ),
{
    law_rolling_deviation_is_of_the_last_changes(a, window, xs);
    if xs.len() >= window {
        law_deviation_is_close(a, xs.skip(xs.len() - window), k);
    }
}

} // verus!
