//! How the two sides of a bucket follow the price: the larger one is on the
//! side that the price moved to, and a move the other way swaps them.

use crate::bounds::law_sides_add_up;
use crate::bvc::{buy_side, classifiable, normal_cdf, sides};
use crate::double::{eval, Double, Op, FRACTION, FRAC_1_SQRT_2, HALF, TWO};
use crate::ieee::{
    distance, grid, in_unit, is_nearest, lemma_at_least, lemma_at_most, lemma_below_overflow,
    lemma_constants, lemma_error, lemma_grid, lemma_opposite, lemma_orders, lemma_quanta_order,
    negated, nonnegative, one, opposite, overflow, quanta, rounded, rounds, unity, zero,
};
use vstd::arithmetic::power2::{lemma2_to64, lemma_pow2_pos, lemma_pow2_unfold, pow2};
use vstd::prelude::*;

verus! {

/// The error function of a standardized price change, from which its buy side
/// is computed.
pub open spec fn erf_of<A: Fn(Op) -> Double>(a: A, delta_p: Double, sigma: Double) -> Double {
    eval(
        a,
        Op::Erf(
            eval(
                a,
                Op::Mul(eval(a, Op::Div(delta_p, sigma)), Double { bits: FRAC_1_SQRT_2 }),
            ),
        ),
    )
}

/// The error function of a price change has the sign of the change.
pub proof fn lemma_erf_of<A: Fn(Op) -> Double>(a: A, delta_p: Double, sigma: Double)
    requires
        rounds(a),
        classifiable(delta_p, sigma),
    ensures
        erf_of(a, delta_p, sigma).finite(),
        -unity() <= quanta(erf_of(a, delta_p, sigma)) <= unity(),
        nonnegative(delta_p) ==> quanta(erf_of(a, delta_p, sigma)) >= 0,
{
    lemma_constants();
    lemma_orders(a);
    let c = Double { bits: FRAC_1_SQRT_2 };
    let z = eval(a, Op::Div(delta_p, sigma));
    let s = eval(a, Op::Mul(z, c));
    let e = eval(a, Op::Erf(s));
    let u = unity();
    assert(!z.nan() && !s.nan());
    lemma_quanta_order(e.absolute(), one());
    lemma_quanta_order(zero(), e.absolute());
    lemma_quanta_order(sigma, zero());
    lemma_quanta_order(c, zero());
    if nonnegative(delta_p) {
        lemma_quanta_order(zero(), delta_p);
        let p = quanta(delta_p);
        assert(p * u >= 0) by (nonlinear_arith)
            requires
                p >= 0,
                u > 0,
        ;
        lemma_at_least(z, zero(), p * u, quanta(sigma));
        if z.finite() {
            lemma_quanta_order(zero(), z);
            let (q, k) = (quanta(z), quanta(c));
            assert(q * k >= 0) by (nonlinear_arith)
                requires
                    q >= 0,
                    k >= 0,
            ;
            lemma_at_least(s, zero(), q * k, u);
        }
        lemma_quanta_order(zero(), e);
    }
}

/// Opposite price changes have opposite error functions.
pub proof fn lemma_erf_of_opposite<A: Fn(Op) -> Double>(
    a: A,
    delta_p: Double,
    other: Double,
    sigma: Double,
)
    requires
        rounds(a),
        classifiable(delta_p, sigma),
        classifiable(other, sigma),
        opposite(delta_p, other),
    ensures
        quanta(erf_of(a, other, sigma)) == -quanta(erf_of(a, delta_p, sigma)),
{
    lemma_constants();
    lemma_orders(a);
    lemma_erf_of(a, delta_p, sigma);
    lemma_erf_of(a, other, sigma);
    let c = Double { bits: FRAC_1_SQRT_2 };
    let (z, y) = (eval(a, Op::Div(delta_p, sigma)), eval(a, Op::Div(other, sigma)));
    let u = unity();
    let p = quanta(delta_p);
    assert(quanta(other) == -p);
    assert((-p) * u == -(p * u)) by (nonlinear_arith);
    lemma_quanta_order(sigma, zero());
    lemma_opposite(z, y, p * u, quanta(sigma));
    let (s, r) = (eval(a, Op::Mul(z, c)), eval(a, Op::Mul(y, c)));
    if z.finite() {
        let (q, k) = (quanta(z), quanta(c));
        assert(quanta(y) == -q);
        assert((-q) * k == -(q * k)) by (nonlinear_arith);
        lemma_opposite(s, r, q * k, u);
    }
    assert(opposite(s, r));
}

/// The standard normal probability of a number is half of one plus the error
/// function of the number over the square root of two, up to two roundings: to
/// within two to the minus 53rd. It lies on the side of one half that the error
/// function points to.
pub proof fn law_normal_probability<A: Fn(Op) -> Double>(a: A, x: Double)
    requires
        rounds(a),
        !x.nan(),
    ensures
        ({
            let f = normal_cdf(a, x);
            let e = eval(a, Op::Erf(eval(a, Op::Mul(x, Double { bits: FRAC_1_SQRT_2 }))));
            let half = Double { bits: HALF };
            &&& e.finite()
            &&& f.finite()
            &&& 0 <= quanta(f) <= unity()
            &&& -unity() <= quanta(e) <= unity()
            &&& distance(2 * quanta(f), unity() + quanta(e)) <= pow2(1022)
            &&& quanta(e) >= 0 ==> half.at_most(f)
            &&& quanta(e) <= 0 ==> f.at_most(half)
        }),
{
    lemma_orders(a);
    lemma_constants();
    let u = unity();
    let scaled = eval(a, Op::Mul(x, Double { bits: FRAC_1_SQRT_2 }));
    assert(!scaled.nan());
    let e = eval(a, Op::Erf(scaled));
    lemma_quanta_order(e.absolute(), one());
    lemma_quanta_order(zero(), e.absolute());
    let half = Double { bits: HALF };
    let h = quanta(half);
    let t = eval(a, Op::Add(one(), e));
    let f = eval(a, Op::Mul(half, t));
    assert(nonnegative(t) && t.at_most(Double { bits: TWO }));
    assert(in_unit(f));
    assert(f == normal_cdf(a, x));
    lemma_quanta_order(zero(), f);
    lemma_quanta_order(f, one());
    let num = u + quanta(e);
    assert(2 * FRACTION * pow2(1022) * 1 == 2 * u) by (nonlinear_arith)
        requires
            u == 2 * FRACTION * pow2(1021),
            pow2(1022) == 2 * pow2(1021),
    ;
    lemma_error(t, num, 1, 1022);
    lemma_at_least(t, zero(), num, 1);
    lemma_quanta_order(zero(), t);
    let w = quanta(t);
    lemma_at_most(t, Double { bits: TWO }, num, 1);
    lemma_quanta_order(t, Double { bits: TWO });
    assert(0 <= h * w <= 2 * FRACTION * pow2(1021) * u) by (nonlinear_arith)
        requires
            2 * h == u,
            0 <= w <= 2 * u,
            u == 2 * FRACTION * pow2(1021),
            u > 0,
    ;
    lemma_error(f, h * w, u, 1021);
    let g = quanta(f);
    // Both sides of the bound on the product are multiples of half of unity.
    assert(distance(2 * g, w) <= pow2(1021)) by {
        assert(g * u == h * (2 * g)) by (nonlinear_arith)
            requires
                2 * h == u,
        ;
        let k = pow2(1021) as int;
        assert(k * u == h * (2 * k)) by (nonlinear_arith)
            requires
                2 * h == u,
        ;
        if 2 * g <= w {
            assert(w - 2 * g <= k) by (nonlinear_arith)
                requires
                    2 * (h * w - h * (2 * g)) <= h * (2 * k),
                    h > 0,
            ;
        } else {
            assert(2 * g - w <= k) by (nonlinear_arith)
                requires
                    2 * (h * (2 * g) - h * w) <= h * (2 * k),
                    h > 0,
            ;
        }
    }
    if quanta(e) >= 0 {
        lemma_at_least(t, one(), num, 1);
        lemma_quanta_order(one(), t);
        assert(h * u <= h * w) by (nonlinear_arith)
            requires
                u <= w,
                h > 0,
        ;
        lemma_at_least(f, half, h * w, u);
    }
    if quanta(e) <= 0 {
        lemma_at_most(t, one(), num, 1);
        lemma_quanta_order(t, one());
        assert(h * w <= h * u) by (nonlinear_arith)
            requires
                w <= u,
                h > 0,
        ;
        lemma_at_most(f, half, h * w, u);
    }
}

/// A fraction is the normal probability of the standardized price change.
pub proof fn lemma_fraction<A: Fn(Op) -> Double>(a: A, delta_p: Double, sigma: Double)
    requires
        rounds(a),
        classifiable(delta_p, sigma),
    ensures
        ({
            let f = buy_side(a, delta_p, sigma);
            let e = erf_of(a, delta_p, sigma);
            let half = Double { bits: HALF };
            &&& f.finite()
            &&& 0 <= quanta(f) <= unity()
            &&& distance(2 * quanta(f), unity() + quanta(e)) <= pow2(1022)
            &&& quanta(e) >= 0 ==> half.at_most(f)
            &&& quanta(e) <= 0 ==> f.at_most(half)
        }),
{
    lemma_orders(a);
    law_normal_probability(a, eval(a, Op::Div(delta_p, sigma)));
}

/// The numbers next to half of a number, one and the same where the half is a
/// number itself.
proof fn lemma_halves(v: Double) -> (p: (Double, Double))
    requires
        v.finite(),
        v.positive(),
    ensures
        p.0.finite(),
        p.1.finite(),
        quanta(p.0) + quanta(p.1) == quanta(v),
        quanta(p.0) <= quanta(p.1) <= quanta(p.0) + quanta(v) % 2,
{
    let f = FRACTION as int;
    let m = v.magnitude();
    let e = m / f;
    lemma2_to64();
    if e >= 2 {
        let d = Double { bits: (v.bits - FRACTION) as u64 };
        assert((m - f) / f == e - 1 && (m - f) % f == m % f);
        lemma_pow2_unfold((e - 1) as nat);
        let (s, k) = (f + m % f, pow2((e - 2) as nat) as int);
        assert(s * (2 * k) == 2 * (s * k)) by (nonlinear_arith);
        assert(quanta(v) == 2 * quanta(d));
        (d, d)
    } else {
        let q = quanta(v);
        if e == 1 {
            let (s, k) = (f + m % f, pow2((e - 1) as nat) as int);
            assert(s * k == s) by (nonlinear_arith)
                requires
                    k == 1,
            ;
        }
        assert(0 <= q < 2 * f);
        let (lo, hi) = (q / 2, q - q / 2);
        lemma_grid(lo, 0);
        lemma_grid(hi, 0);
        assert(lo * 1 == lo && hi * 1 == hi) by (nonlinear_arith);
        (Double { bits: grid(lo, 0) as u64 }, Double { bits: grid(hi, 0) as u64 })
    }
}

/// Whether no rounding can tip an even split: half of the volume is a number,
/// or the split is not even.
pub open spec fn splits_clearly(volume: Double, fraction: Double) -> bool {
    quanta(volume) % 2 == 0 || !fraction.equal(Double { bits: HALF })
}

/// The larger side of a bucket is the one that the price moved to: after a
/// price that did not fall there is no more on the sell side than on the buy
/// side, and after one that did not rise no more on the buy side. Where the
/// split is even and half of the volume is not a number, which takes a volume
/// with an odd number of quanta, the sides can be a quantum apart either way.
pub proof fn law_larger_side_follows_the_price<A: Fn(Op) -> Double>(
    a: A,
    delta_p: Double,
    sigma: Double,
    volume: Double,
)
    requires
        rounds(a),
        classifiable(delta_p, sigma),
        volume.finite(),
        volume.positive(),
    ensures
        ({
            let (buy, sell) = sides(a, delta_p, sigma, volume);
            let clear = splits_clearly(volume, buy_side(a, delta_p, sigma));
            &&& nonnegative(delta_p) ==> quanta(sell) <= quanta(buy) + 1
            &&& nonnegative(delta_p) && clear ==> sell.at_most(buy)
            &&& delta_p.at_most(zero()) ==> quanta(buy) <= quanta(sell) + 1
            &&& delta_p.at_most(zero()) && clear ==> buy.at_most(sell)
        }),
{
    lemma_constants();
    lemma_orders(a);
    lemma_fraction(a, delta_p, sigma);
    lemma_erf_of(a, delta_p, sigma);
    let f = buy_side(a, delta_p, sigma);
    let half = Double { bits: HALF };
    let (buy, sell) = sides(a, delta_p, sigma, volume);
    let clear = splits_clearly(volume, f);
    let (v, g, u) = (quanta(volume), quanta(f), unity());
    let (lo, hi) = lemma_halves(volume);
    lemma_quanta_order(volume, zero());
    assert(buy.at_most(volume) && nonnegative(buy));
    lemma_quanta_order(buy, volume);
    assert(sell.at_most(volume) && nonnegative(sell));
    lemma_quanta_order(half, f);
    lemma_quanta_order(f, half);
    if nonnegative(delta_p) {
        lemma_more_than_half(buy, lo, hi, v, g, u);
        lemma_quanta_order(lo, buy);
        lemma_quanta_order(hi, buy);
        lemma_at_most(sell, hi, v - quanta(buy), 1);
        lemma_quanta_order(sell, hi);
        if clear {
            lemma_at_most(sell, buy, v - quanta(buy), 1);
        }
    }
    if delta_p.at_most(zero()) {
        lemma_erf_of_opposite(a, delta_p, negated(delta_p), sigma);
        lemma_erf_of(a, negated(delta_p), sigma);
        lemma_less_than_half(buy, lo, hi, v, g, u);
        lemma_quanta_order(buy, lo);
        lemma_quanta_order(buy, hi);
        lemma_at_least(sell, lo, v - quanta(buy), 1);
        lemma_quanta_order(lo, sell);
        if clear {
            lemma_at_least(sell, buy, v - quanta(buy), 1);
        }
    }
}

/// At least half of a volume rounds to at least the lower of the numbers next
/// to its half, and more than half to at least the upper one.
proof fn lemma_more_than_half(buy: Double, lo: Double, hi: Double, v: int, g: int, u: int)
    requires
        rounded(buy, v * g, u),
        buy.finite(),
        lo.finite(),
        hi.finite(),
        quanta(lo) + quanta(hi) == v,
        quanta(lo) <= quanta(hi) <= quanta(lo) + 1,
        v > 0,
        u > 0,
        u <= 2 * g,
    ensures
        lo.at_most(buy),
        u < 2 * g ==> hi.at_most(buy),
{
    let (l, h) = (quanta(lo), quanta(hi));
    assert(l * u <= v * g) by (nonlinear_arith)
        requires
            2 * l <= v,
            u <= 2 * g,
            v > 0,
            u > 0,
    ;
    lemma_at_least(buy, lo, v * g, u);
    if u < 2 * g {
        if h * u <= v * g {
            lemma_at_least(buy, hi, v * g, u);
        } else {
            lemma_quanta_order(hi, buy);
            let b = quanta(buy);
            if b < h {
                lemma_finite_is_nearest(buy, v * g, u);
                assert(b * u <= l * u) by (nonlinear_arith)
                    requires
                        b <= l,
                        u > 0,
                ;
                assert(l * u + h * u < 2 * (v * g)) by (nonlinear_arith)
                    requires
                        l + h == v,
                        u < 2 * g,
                        v > 0,
                ;
                assert(distance(quanta(buy) * u, v * g) <= distance(quanta(hi) * u, v * g));
            }
        }
    }
}

/// At most half of a volume rounds to at most the upper of the numbers next to
/// its half, and less than half to at most the lower one.
proof fn lemma_less_than_half(buy: Double, lo: Double, hi: Double, v: int, g: int, u: int)
    requires
        rounded(buy, v * g, u),
        buy.finite(),
        lo.finite(),
        hi.finite(),
        quanta(lo) + quanta(hi) == v,
        quanta(lo) <= quanta(hi) <= quanta(lo) + 1,
        v > 0,
        u > 0,
        2 * g <= u,
    ensures
        buy.at_most(hi),
        2 * g < u ==> buy.at_most(lo),
{
    let (l, h) = (quanta(lo), quanta(hi));
    assert(v * g <= h * u) by (nonlinear_arith)
        requires
            v <= 2 * h,
            2 * g <= u,
            v > 0,
            u > 0,
    ;
    lemma_at_most(buy, hi, v * g, u);
    if 2 * g < u {
        if v * g <= l * u {
            lemma_at_most(buy, lo, v * g, u);
        } else {
            lemma_quanta_order(buy, lo);
            let b = quanta(buy);
            if l < b {
                lemma_finite_is_nearest(buy, v * g, u);
                assert(h * u <= b * u) by (nonlinear_arith)
                    requires
                        h <= b,
                        u > 0,
                ;
                assert(2 * (v * g) < l * u + h * u) by (nonlinear_arith)
                    requires
                        l + h == v,
                        2 * g < u,
                        v > 0,
                ;
                assert(distance(quanta(buy) * u, v * g) <= distance(quanta(lo) * u, v * g));
            }
        }
    }
}

/// What rounds to a finite number rounds to the nearest one.
proof fn lemma_finite_is_nearest(r: Double, num: int, den: int)
    requires
        rounded(r, num, den),
        r.finite(),
    ensures
        is_nearest(r, num, den),
{
}

/// A price change the other way swaps the two sides, up to rounding: each comes
/// within four steps of a grid that covers the volume of what the other was.
/// The grid of the largest numbers covers every volume.
pub proof fn law_opposite_changes_swap_the_sides<A: Fn(Op) -> Double>(
    a: A,
    delta_p: Double,
    other: Double,
    sigma: Double,
    volume: Double,
    j: nat,
)
    requires
        rounds(a),
        classifiable(delta_p, sigma),
        classifiable(other, sigma),
        opposite(delta_p, other),
        volume.finite(),
        volume.positive(),
        j <= 2045,
        j == 2045 || quanta(volume) <= 2 * FRACTION * pow2(j),
    ensures
        ({
            let (buy, sell) = sides(a, delta_p, sigma, volume);
            let (buy_other, sell_other) = sides(a, other, sigma, volume);
            &&& distance(quanta(buy_other), quanta(sell)) <= 4 * pow2(j)
            &&& distance(quanta(sell_other), quanta(buy)) <= 4 * pow2(j)
        }),
{
    lemma_constants();
    lemma_fraction(a, delta_p, sigma);
    lemma_fraction(a, other, sigma);
    lemma_erf_of_opposite(a, delta_p, other, sigma);
    law_sides_add_up(a, delta_p, sigma, volume, j);
    law_sides_add_up(a, other, sigma, volume, j);
    lemma_quanta_order(volume, zero());
    let (f, g) = (quanta(buy_side(a, delta_p, sigma)), quanta(buy_side(a, other, sigma)));
    let (v, u, k, c) = (quanta(volume), unity(), pow2(j) as int, pow2(1022) as int);
    let (b, d) = (
        quanta(sides(a, delta_p, sigma, volume).0),
        quanta(sides(a, other, sigma, volume).0),
    );
    lemma_below_overflow(volume);
    lemma_part_error(a, volume, buy_side(a, delta_p, sigma), j);
    lemma_part_error(a, volume, buy_side(a, other, sigma), j);
    lemma_pow2_pos(j);
    assert(distance(f + g, u) <= c);
    assert(distance(v * f + v * g, v * u) <= 2 * (k * u)) by {
        assert(v * f + v * g == v * (f + g)) by (nonlinear_arith);
        assert(v * c <= 2 * (k * u)) by (nonlinear_arith)
            requires
                v <= 2 * FRACTION * k,
                u == FRACTION * c,
                c > 0,
        ;
        if f + g <= u {
            assert(v * u - v * (f + g) <= v * c) by (nonlinear_arith)
                requires
                    u - (f + g) <= c,
                    v > 0,
            ;
            assert(v * (f + g) <= v * u) by (nonlinear_arith)
                requires
                    f + g <= u,
                    v > 0,
            ;
        } else {
            assert(v * (f + g) - v * u <= v * c) by (nonlinear_arith)
                requires
                    (f + g) - u <= c,
                    v > 0,
            ;
            assert(v * u <= v * (f + g)) by (nonlinear_arith)
                requires
                    u <= f + g,
                    v > 0,
            ;
        }
    }
    assert(distance((b + d) * u, v * u) <= 3 * (k * u)) by {
        assert((b + d) * u == b * u + d * u) by (nonlinear_arith);
    }
    assert(distance(b + d, v) <= 3 * k) by {
        if b + d <= v {
            assert(v - (b + d) <= 3 * k) by (nonlinear_arith)
                requires
                    v * u - (b + d) * u <= 3 * (k * u),
                    u > 0,
            ;
        } else {
            assert((b + d) - v <= 3 * k) by (nonlinear_arith)
                requires
                    (b + d) * u - v * u <= 3 * (k * u),
                    u > 0,
            ;
        }
    }
}

/// A part of a volume is off by at most half a step.
pub proof fn lemma_part_error<A: Fn(Op) -> Double>(a: A, volume: Double, fraction: Double, j: nat)
    requires
        rounds(a),
        volume.finite(),
        volume.positive(),
        fraction.finite(),
        0 <= quanta(fraction) <= unity(),
        j <= 2045,
        j == 2045 || quanta(volume) <= 2 * FRACTION * pow2(j),
    ensures
        2 * distance(
            quanta(eval(a, Op::Mul(volume, fraction))) * unity(),
            quanta(volume) * quanta(fraction),
        ) <= pow2(j) * unity(),
{
    lemma_constants();
    lemma_quanta_order(volume, zero());
    lemma_below_overflow(volume);
    let (v, f, u) = (quanta(volume), quanta(fraction), unity());
    assert(0 <= v * f <= 2 * FRACTION * pow2(j) * u) by (nonlinear_arith)
        requires
            0 < v <= 2 * FRACTION * pow2(j),
            0 <= f <= u,
    ;
    let t = overflow();
    assert(v * f < t * u) by (nonlinear_arith)
        requires
            0 < v < t,
            0 <= f <= u,
            u > 0,
    ;
    lemma_error(eval(a, Op::Mul(volume, fraction)), v * f, u, j);
}

} // verus!
