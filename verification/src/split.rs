//! What the split of a bucket is: the normal probability of its price change,
//! measured in deviations, says how much of it was bought, and the order
//! imbalance is how far the two sides lie apart.

use crate::bounds::{law_imbalance_is_at_most_the_volume, law_sides_add_up};
use crate::bucket::ClosedBucket;
use crate::bvc::{buy_side, normal_cdf, sides};
use crate::double::{eval, Double, Op, FRACTION, FRAC_1_SQRT_2, ONE, SIGN};
use crate::ieee::{
    distance, is_nearest, lemma_at_least, lemma_at_most, lemma_below_overflow, lemma_constants,
    lemma_error, lemma_exact, lemma_monotone, lemma_negated, lemma_orders, lemma_quanta_order,
    negated, one, opposite, quanta, rounded, rounds, unity, zero, EXACT,
};
use crate::precision::{lemma_rounded_scaled, lemma_scaled};
use crate::symmetry::{
    erf_of, lemma_erf_of, lemma_erf_of_opposite, lemma_fraction, lemma_part_error,
};
use crate::vpin::imbalance;
use vstd::arithmetic::power2::{lemma_pow2_pos, pow2};
use vstd::prelude::*;

verus! {

/// What scales a number to the argument of the error function is the square
/// root of one half, as near as a double comes: twice its square is 1 to within
/// two units of the precision.
pub proof fn law_the_scale_is_the_root_of_one_half()
    ensures
        ({
            let c = quanta(Double { bits: FRAC_1_SQRT_2 });
            &&& c > 0
            &&& EXACT * distance(2 * (c * c), unity() * unity()) <= 2 * (unity() * unity())
        }),
{
    lemma_constants();
    let f = FRACTION as int;
    let p = pow2(1021) as int;
    assert(FRAC_1_SQRT_2 as int / f == 1022 && FRAC_1_SQRT_2 as int % f == 0x6_A09E_667F_3BCD);
    let m: int = 0x16_A09E_667F_3BCD;
    let c = quanta(Double { bits: FRAC_1_SQRT_2 });
    assert(c == m * p);
    assert(c > 0) by (nonlinear_arith)
        requires
            c == m * p,
            m > 0,
            p > 0,
    ;
    assert(2 * (c * c) == 2 * (m * m) * (p * p)) by (nonlinear_arith)
        requires
            c == m * p,
    ;
    let u = unity();
    assert(u * u == 4 * (f * f) * (p * p)) by (nonlinear_arith)
        requires
            u == 2 * f * p,
    ;
    let off = distance(2 * (m * m), 4 * (f * f));
    assert(EXACT * off <= 2 * (4 * (f * f)));
    let s = p * p;
    assert(s > 0) by (nonlinear_arith)
        requires
            s == p * p,
            p > 0,
    ;
    lemma_scaled(2 * (m * m), 4 * (f * f), s);
    assert(EXACT * (off * s) <= 2 * (4 * (f * f) * s)) by (nonlinear_arith)
        requires
            EXACT * off <= 2 * (4 * (f * f)),
            s > 0,
    ;
}

/// Equal fractions round to equal numbers.
proof fn lemma_same_fraction(r: Double, num: int, den: int, s: Double, other: int, under: int)
    requires
        rounded(r, num, den),
        rounded(s, other, under),
        den > 0,
        under > 0,
        num * under == other * den,
    ensures
        r.equal(s),
{
    lemma_rounded_scaled(r, num, den, under);
    lemma_rounded_scaled(s, other, under, den);
    assert(den * under == under * den && den * under > 0) by (nonlinear_arith)
        requires
            den > 0,
            under > 0,
    ;
    lemma_monotone(r, num * under, s, num * under, den * under);
    lemma_monotone(s, num * under, r, num * under, den * under);
}

/// Numbers that are equal have equal normal probabilities, zeros of either sign
/// among them.
proof fn lemma_same_probability<A: Fn(Op) -> Double>(a: A, x: Double, y: Double)
    requires
        rounds(a),
        x.equal(y),
    ensures
        normal_cdf(a, x) == normal_cdf(a, y),
{
    if x.place() != 0 {
        assert(x.bits == y.bits);
    } else {
        lemma_constants();
        lemma_orders(a);
        let c = Double { bits: FRAC_1_SQRT_2 };
        let (s, t) = (eval(a, Op::Mul(x, c)), eval(a, Op::Mul(y, c)));
        assert(quanta(x) == 0 && quanta(y) == 0) by {
            lemma_quanta_order(x, zero());
            lemma_quanta_order(y, zero());
        }
        assert(0 * quanta(c) == 0) by (nonlinear_arith);
        assert(0 == quanta(zero()) * unity()) by (nonlinear_arith)
            requires
                quanta(zero()) == 0,
        ;
        lemma_exact(s, zero(), 0, unity());
        lemma_exact(t, zero(), 0, unity());
        assert(opposite(s, s) && opposite(t, t));
        let (d, e) = (eval(a, Op::Erf(s)), eval(a, Op::Erf(t)));
        assert(opposite(d, d) && opposite(e, e));
        lemma_quanta_order(d, zero());
        lemma_quanta_order(e, zero());
        let (v, w) = (eval(a, Op::Add(one(), d)), eval(a, Op::Add(one(), e)));
        lemma_exact(v, one(), unity(), 1);
        lemma_exact(w, one(), unity(), 1);
        assert(v.bits == ONE && w.bits == ONE);
    }
}

/// How a bucket is split depends on its price change and the deviation through
/// their quotient alone: two changes that are the same number of deviations
/// split a volume in the same way.
pub proof fn law_split_depends_on_the_quotient<A: Fn(Op) -> Double>(
    a: A,
    delta_p: Double,
    sigma: Double,
    other: Double,
    other_sigma: Double,
    volume: Double,
)
    requires
        rounds(a),
        delta_p.finite(),
        sigma.finite(),
        sigma.positive(),
        other.finite(),
        other_sigma.finite(),
        other_sigma.positive(),
        quanta(delta_p) * quanta(other_sigma) == quanta(other) * quanta(sigma),
    ensures
        buy_side(a, delta_p, sigma) == buy_side(a, other, other_sigma),
        sides(a, delta_p, sigma, volume) == sides(a, other, other_sigma, volume),
{
    lemma_constants();
    lemma_quanta_order(sigma, zero());
    lemma_quanta_order(other_sigma, zero());
    let (p, q, s, t, u) = (
        quanta(delta_p),
        quanta(other),
        quanta(sigma),
        quanta(other_sigma),
        unity(),
    );
    assert((p * u) * t == (q * u) * s) by (nonlinear_arith)
        requires
            p * t == q * s,
    ;
    let (y, z) = (eval(a, Op::Div(delta_p, sigma)), eval(a, Op::Div(other, other_sigma)));
    lemma_same_fraction(y, p * u, s, z, q * u, t);
    lemma_same_probability(a, y, z);
}

/// A change of one deviation is bought with the normal probability at 1,
/// whatever the deviation is, and one the other way with that at -1.
pub proof fn law_one_deviation_has_the_probability_at_one<A: Fn(Op) -> Double>(
    a: A,
    delta_p: Double,
    sigma: Double,
)
    requires
        rounds(a),
        delta_p.finite(),
        sigma.finite(),
        sigma.positive(),
    ensures
        quanta(delta_p) == quanta(sigma) ==> buy_side(a, delta_p, sigma) == normal_cdf(a, one()),
        quanta(delta_p) == -quanta(sigma) ==> buy_side(a, delta_p, sigma) == normal_cdf(
            a,
            negated(one()),
        ),
        quanta(delta_p) == 0 ==> buy_side(a, delta_p, sigma) == normal_cdf(a, zero()),
{
    lemma_constants();
    lemma_quanta_order(sigma, zero());
    let z = eval(a, Op::Div(delta_p, sigma));
    let (p, s, u) = (quanta(delta_p), quanta(sigma), unity());
    assert(s * u == u * s && (-s) * u == (-u) * s && 0 * u == 0 * s) by (nonlinear_arith);
    assert(quanta(negated(one())) == -u);
    if p == s {
        lemma_exact(z, one(), p * u, s);
        lemma_same_probability(a, z, one());
    }
    if p == -s {
        lemma_exact(z, negated(one()), p * u, s);
        lemma_same_probability(a, z, negated(one()));
    }
    if p == 0 {
        lemma_exact(z, zero(), p * u, s);
        lemma_same_probability(a, z, zero());
    }
}

/// The two sides of a bucket are its volume times half of one plus the error
/// function of the standardized price change, and times half of one minus it,
/// up to four steps of a grid that covers the volume. The standardized change
/// is the price change over the deviation, scaled by the root of one half.
pub proof fn law_split_is_the_normal_probability<A: Fn(Op) -> Double>(
    a: A,
    delta_p: Double,
    sigma: Double,
    volume: Double,
    j: nat,
)
    requires
        rounds(a),
        delta_p.finite(),
        sigma.finite(),
        sigma.positive(),
        volume.finite(),
        volume.positive(),
        j <= 2045,
        j == 2045 || quanta(volume) <= 2 * FRACTION * pow2(j),
    ensures
        ({
            let (buy, sell) = sides(a, delta_p, sigma, volume);
            let z = eval(a, Op::Div(delta_p, sigma));
            let e = quanta(
                eval(a, Op::Erf(eval(a, Op::Mul(z, Double { bits: FRAC_1_SQRT_2 })))),
            );
            let (v, u) = (quanta(volume), unity());
            &&& distance(2 * (quanta(buy) * u), v * (u + e)) <= 3 * (pow2(j) * u)
            &&& distance(2 * (quanta(sell) * u), v * (u - e)) <= 4 * (pow2(j) * u)
        }),
{
    lemma_constants();
    lemma_fraction(a, delta_p, sigma);
    lemma_erf_of(a, delta_p, sigma);
    law_sides_add_up(a, delta_p, sigma, volume, j);
    lemma_quanta_order(volume, zero());
    lemma_below_overflow(volume);
    lemma_part_error(a, volume, buy_side(a, delta_p, sigma), j);
    lemma_pow2_pos(j);
    let f = quanta(buy_side(a, delta_p, sigma));
    let e = quanta(erf_of(a, delta_p, sigma));
    let (v, u, k, c) = (quanta(volume), unity(), pow2(j) as int, pow2(1022) as int);
    let (buy, sell) = sides(a, delta_p, sigma, volume);
    let (b, s) = (quanta(buy), quanta(sell));
    assert(v * c <= 2 * (k * u)) by (nonlinear_arith)
        requires
            v <= 2 * FRACTION * k,
            u == FRACTION * c,
            c > 0,
    ;
    lemma_scaled(2 * f, u + e, v);
    let d = distance(2 * f, u + e);
    assert(d * v <= v * c) by (nonlinear_arith)
        requires
            d <= c,
            v > 0,
    ;
    assert((2 * f) * v == 2 * (v * f) && (u + e) * v == v * (u + e)) by (nonlinear_arith);
    assert(v * (u + e) == v * u + v * e && v * (u - e) == v * u - v * e) by (nonlinear_arith);
    // The sell side is what is left of the volume.
    let w = distance(b + s, v);
    lemma_scaled(b + s, v, u);
    assert((b + s) * u == b * u + s * u) by (nonlinear_arith);
    assert(2 * (w * u) <= k * u) by (nonlinear_arith)
        requires
            2 * w <= k,
            u > 0,
    ;
}

/// A number and its magnitude round alike.
proof fn lemma_absolute(r: Double, num: int)
    requires
        rounded(r, num, 1),
        r.finite(),
    ensures
        rounded(r.absolute(), distance(num, 0), 1),
{
    lemma_constants();
    if num >= 0 {
        lemma_at_least(r, zero(), num, 1);
        if r.bits >= SIGN {
            assert(r.magnitude() == 0);
            assert(is_nearest(r, num, 1));
            assert(quanta(r.absolute()) == quanta(r));
        }
    } else {
        lemma_negated(r, num, 1);
        lemma_at_most(r, zero(), num, 1);
        let n = negated(r);
        if r.bits < SIGN {
            assert(r.magnitude() == 0);
            assert(is_nearest(n, -num, 1));
            assert(quanta(r.absolute()) == quanta(n));
        }
    }
}

/// The order imbalance of a bucket is how far its two sides lie apart: the
/// number nearest to that distance.
pub proof fn law_imbalance_is_the_distance_of_the_sides<A: Fn(Op) -> Double>(
    a: A,
    closed: ClosedBucket,
    sigma: Double,
)
    requires
        rounds(a),
        closed.delta_p.finite(),
        sigma.finite(),
        sigma.positive(),
        closed.volume.finite(),
        closed.volume.positive(),
    ensures
        ({
            let (buy, sell) = sides(a, closed.delta_p, sigma, closed.volume);
            &&& imbalance(a, closed, sigma).finite()
            &&& rounded(
                imbalance(a, closed, sigma),
                distance(quanta(buy), quanta(sell)),
                1,
            )
        }),
{
    let (buy, sell) = sides(a, closed.delta_p, sigma, closed.volume);
    law_imbalance_is_at_most_the_volume(a, closed, sigma);
    let r = eval(a, Op::Sub(buy, sell));
    assert(r.absolute().finite());
    assert(r.finite());
    lemma_absolute(r, quanta(buy) - quanta(sell));
}

/// The order imbalance of a bucket is its volume times the magnitude of the
/// error function of the standardized price change, up to four steps of a grid
/// that covers the volume: none where the price did not move, the whole volume
/// where it moved by many deviations, either way.
pub proof fn law_imbalance_is_the_error_function<A: Fn(Op) -> Double>(
    a: A,
    closed: ClosedBucket,
    sigma: Double,
    j: nat,
)
    requires
        rounds(a),
        closed.delta_p.finite(),
        sigma.finite(),
        sigma.positive(),
        closed.volume.finite(),
        closed.volume.positive(),
        j <= 2045,
        j == 2045 || quanta(closed.volume) <= 2 * FRACTION * pow2(j),
    ensures
        ({
            let z = eval(a, Op::Div(closed.delta_p, sigma));
            let e = quanta(
                eval(a, Op::Erf(eval(a, Op::Mul(z, Double { bits: FRAC_1_SQRT_2 })))),
            );
            let (v, u) = (quanta(closed.volume), unity());
            &&& distance(
                quanta(imbalance(a, closed, sigma)) * u,
                v * distance(e, 0),
            ) <= 4 * (pow2(j) * u)
            &&& quanta(closed.delta_p) == 0 ==> quanta(imbalance(a, closed, sigma)) <= 4 * pow2(j)
        }),
{
    lemma_constants();
    law_imbalance_is_the_distance_of_the_sides(a, closed, sigma);
    law_split_is_the_normal_probability(a, closed.delta_p, sigma, closed.volume, j);
    law_imbalance_is_at_most_the_volume(a, closed, sigma);
    lemma_erf_of(a, closed.delta_p, sigma);
    lemma_below_overflow(closed.volume);
    let (buy, sell) = sides(a, closed.delta_p, sigma, closed.volume);
    let (b, s, v, u, k) = (
        quanta(buy),
        quanta(sell),
        quanta(closed.volume),
        unity(),
        pow2(j) as int,
    );
    let e = quanta(erf_of(a, closed.delta_p, sigma));
    let r = imbalance(a, closed, sigma);
    let i = quanta(r);
    lemma_quanta_order(zero(), buy);
    lemma_quanta_order(buy, closed.volume);
    lemma_quanta_order(zero(), sell);
    lemma_quanta_order(sell, closed.volume);
    let d = distance(b, s);
    lemma_error(r, d, 1, j);
    assert(v * (u + e) - v * (u - e) == 2 * (v * e)) by (nonlinear_arith);
    lemma_scaled(b, s, u);
    lemma_scaled(i, d, u);
    let w = distance(i, d);
    assert(2 * (w * u) <= k * u) by (nonlinear_arith)
        requires
            2 * w <= k,
            u > 0,
    ;
    assert(v * distance(e, 0) == distance(v * e, 0)) by {
        lemma_quanta_order(closed.volume, zero());
        assert(e >= 0 ==> v * e >= 0) by (nonlinear_arith)
            requires
                v > 0,
        ;
        assert(e <= 0 ==> v * e <= 0) by (nonlinear_arith)
            requires
                v > 0,
        ;
        assert(v * (-e) == -(v * e)) by (nonlinear_arith);
    }
    assert(k * u >= 0) by (nonlinear_arith)
        requires
            k >= 0,
            u > 0,
    ;
    if quanta(closed.delta_p) == 0 {
        assert(opposite(closed.delta_p, closed.delta_p)) by {
            lemma_quanta_order(closed.delta_p, zero());
        }
        lemma_erf_of_opposite(a, closed.delta_p, closed.delta_p, sigma);
        assert(v * 0 == 0) by (nonlinear_arith);
        assert(i <= 4 * k) by (nonlinear_arith)
            requires
                i * u <= 4 * (k * u),
                u > 0,
        ;
    }
}

/// The order imbalance does not tell a rise from a fall: changes that are
/// opposite give the same one, up to eight steps of a grid that covers the
/// volume.
pub proof fn law_imbalance_ignores_the_direction<A: Fn(Op) -> Double>(
    a: A,
    closed: ClosedBucket,
    other: ClosedBucket,
    sigma: Double,
    j: nat,
)
    requires
        rounds(a),
        closed.delta_p.finite(),
        other.delta_p.finite(),
        quanta(other.delta_p) == -quanta(closed.delta_p),
        closed.volume == other.volume,
        sigma.finite(),
        sigma.positive(),
        closed.volume.finite(),
        closed.volume.positive(),
        j <= 2045,
        j == 2045 || quanta(closed.volume) <= 2 * FRACTION * pow2(j),
    ensures
        distance(
            quanta(imbalance(a, closed, sigma)),
            quanta(imbalance(a, other, sigma)),
        ) <= 8 * pow2(j),
{
    lemma_constants();
    law_imbalance_is_the_error_function(a, closed, sigma, j);
    law_imbalance_is_the_error_function(a, other, sigma, j);
    assert(opposite(closed.delta_p, other.delta_p)) by {
        lemma_quanta_order(negated(closed.delta_p), other.delta_p);
    }
    lemma_erf_of_opposite(a, closed.delta_p, other.delta_p, sigma);
    let (x, y, k, u) = (
        quanta(imbalance(a, closed, sigma)),
        quanta(imbalance(a, other, sigma)),
        pow2(j) as int,
        unity(),
    );
    lemma_scaled(x, y, u);
    let d = distance(x, y);
    assert(d <= 8 * k) by (nonlinear_arith)
        requires
            d * u <= 8 * (k * u),
            u > 0,
    ;
}

/// The order imbalance grows with the size of the price change, as far as the
/// error function does: where the error function is no smaller, neither is the
/// imbalance, up to eight steps of a grid that covers the volume.
pub proof fn law_imbalance_grows_with_the_change<A: Fn(Op) -> Double>(
    a: A,
    closed: ClosedBucket,
    other: ClosedBucket,
    sigma: Double,
    j: nat,
)
    requires
        rounds(a),
        closed.delta_p.finite(),
        other.delta_p.finite(),
        closed.volume == other.volume,
        sigma.finite(),
        sigma.positive(),
        closed.volume.finite(),
        closed.volume.positive(),
        j <= 2045,
        j == 2045 || quanta(closed.volume) <= 2 * FRACTION * pow2(j),
        ({
            let c = Double { bits: FRAC_1_SQRT_2 };
            let y = eval(a, Op::Mul(eval(a, Op::Div(closed.delta_p, sigma)), c));
            let z = eval(a, Op::Mul(eval(a, Op::Div(other.delta_p, sigma)), c));
            eval(a, Op::Erf(y)).absolute().at_most(eval(a, Op::Erf(z)).absolute())
        }),
    ensures
        quanta(imbalance(a, closed, sigma)) <= quanta(imbalance(a, other, sigma)) + 8 * pow2(j),
{
    lemma_constants();
    law_imbalance_is_the_error_function(a, closed, sigma, j);
    law_imbalance_is_the_error_function(a, other, sigma, j);
    lemma_erf_of(a, closed.delta_p, sigma);
    lemma_erf_of(a, other.delta_p, sigma);
    let (d, e) = (erf_of(a, closed.delta_p, sigma), erf_of(a, other.delta_p, sigma));
    lemma_quanta_order(d.absolute(), e.absolute());
    let (v, p, q) = (quanta(closed.volume), distance(quanta(d), 0), distance(quanta(e), 0));
    lemma_quanta_order(closed.volume, zero());
    lemma_quanta_order(zero(), d.absolute());
    lemma_quanta_order(zero(), e.absolute());
    assert(quanta(d.absolute()) == p && quanta(e.absolute()) == q);
    assert(v * p <= v * q) by (nonlinear_arith)
        requires
            p <= q,
            v > 0,
    ;
    let (x, y, k, u) = (
        quanta(imbalance(a, closed, sigma)),
        quanta(imbalance(a, other, sigma)),
        pow2(j) as int,
        unity(),
    );
    assert(x <= y + 8 * k) by (nonlinear_arith)
        requires
            x * u <= y * u + 8 * (k * u),
            u > 0,
    ;
}

} // verus!
