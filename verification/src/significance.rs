//! What the p-value of two proportions is: the probability that a normal
//! variable lies further out than the gap between them, measured in the
//! deviation that their sampling noise has.

use crate::bvc::normal_cdf;
use crate::calibrate::{p_value, proportion_variance};
use crate::double::{eval, Double, Op, FRACTION, FRAC_1_SQRT_2, ONE, TWO, ZERO};
use crate::ieee::{
    distance, in_unit, lemma_at_least, lemma_at_most, lemma_constants, lemma_error, lemma_exact,
    lemma_orders, lemma_quanta_order, nonnegative, one, quanta, rounds, unity, zero, EXACT,
};
use crate::precision::{
    lemma_added, lemma_around, lemma_chain, lemma_chain_down, lemma_difference_squared,
    lemma_multiple, lemma_off, lemma_off_or_least, lemma_relative, lemma_scaled, lemma_times,
};
use crate::roots::{lemma_root_of, lemma_squares_order};
use crate::symmetry::law_normal_probability;
use vstd::arithmetic::mul::{
    lemma_mul_inequality, lemma_mul_is_associative, lemma_mul_is_commutative, lemma_mul_nonnegative,
};
use vstd::arithmetic::power2::{
    lemma_pow2_adds, lemma_pow2_pos, lemma_pow2_strictly_increases, lemma_pow2_unfold, pow2,
};
use vstd::prelude::*;

verus! {

/// The computed variance of a proportion, times the count and in the unit of a
/// product: the proportion times what it lacks to 1, up to a few units of the
/// precision and two quanta.
proof fn lemma_variance<A: Fn(Op) -> Double>(a: A, p: Double, n: u64)
    requires
        rounds(a),
        in_unit(p),
        0 < n <= EXACT,
    ensures
        ({
            let v = proportion_variance(a, p, n);
            let x = quanta(p) * (unity() - quanta(p));
            let least = unity() + n * unity();
            &&& v.finite()
            &&& 0 <= quanta(v) <= unity()
            &&& x >= 0
            &&& x == 0 ==> quanta(v) == 0
            &&& EXACT * (quanta(v) * (n * unity())) <= (EXACT + 5) * (x + least)
            &&& (EXACT - 3) * x <= EXACT * (quanta(v) * (n * unity()) + least)
        }),
{
    lemma_constants();
    let rest = eval(a, Op::Sub(one(), p));
    let product = eval(a, Op::Mul(p, rest));
    let count = eval(a, Op::Of(n));
    let v = proportion_variance(a, p, n);
    let (q, b, m, u, e) = (quanta(p), quanta(rest), quanta(product), unity(), EXACT as int);
    lemma_quanta_order(zero(), p);
    lemma_quanta_order(p, one());
    lemma_at_least(rest, zero(), u - q, 1);
    lemma_at_most(rest, one(), u - q, 1);
    lemma_quanta_order(zero(), rest);
    lemma_quanta_order(rest, one());
    assert(in_unit(product)) by {
        lemma_orders(a);
        assert(product.at_most(p));
    }
    lemma_quanta_order(zero(), product);
    lemma_quanta_order(product, one());
    let den = n * u;
    assert(count.finite() && quanta(count) == den) by {
        lemma_orders(a);
    }
    lemma_mul_inequality(1, n as int, u);
    lemma_quanta_order(count, zero());
    lemma_mul_nonnegative(m, u);
    lemma_at_least(v, zero(), m * u, den);
    assert(m * u <= m * den) by {
        lemma_mul_inequality(u, den, m);
        lemma_mul_is_commutative(u, m);
        lemma_mul_is_commutative(den, m);
    }
    lemma_at_most(v, product, m * u, den);
    lemma_quanta_order(zero(), v);
    lemma_quanta_order(v, product);
    let x = q * (u - q);
    lemma_mul_nonnegative(q, u - q);
    // What the proportion lacks to 1.
    lemma_relative(rest, u - q, 1);
    lemma_off(e, b, u - q, distance(b, u - q));
    lemma_times(e, b, e + 1, u - q, q);
    lemma_times(e - 1, u - q, e, b, q);
    lemma_mul_is_commutative(b, q);
    lemma_mul_is_commutative(u - q, q);
    // The product.
    lemma_mul_nonnegative(q, b);
    lemma_relative(product, q * b, u);
    lemma_off_or_least(e, m * u, q * b, u);
    lemma_mul_inequality(e, e + 1, u);
    lemma_added(e, e + 1, q * b, x, u, u);
    lemma_chain(e, m * u, q * b + u, x + u, 1, 1);
    lemma_chain_down(e, m * u + u, q * b, x, 1, 1);
    // The quotient.
    lemma_relative(v, m * u, den);
    lemma_off_or_least(e, quanta(v) * den, m * u, den);
    lemma_mul_inequality(e, e + 3, den);
    lemma_added(e, e + 3, m * u, x + u, den, den);
    lemma_chain(e, quanta(v) * den, m * u + den, x + u + den, 1, 3);
    lemma_mul_inequality(e - 1, e, u);
    lemma_added(e - 1, e, m * u, quanta(v) * den + den, u, u);
    lemma_chain_down(e, quanta(v) * den + den + u, m * u + u, x, 1, 2);
    if x == 0 {
        lemma_nothing_varies(a, p, n);
    }
}

/// A proportion of 0 or 1 does not vary.
proof fn lemma_nothing_varies<A: Fn(Op) -> Double>(a: A, p: Double, n: u64)
    requires
        rounds(a),
        in_unit(p),
        0 < n <= EXACT,
        quanta(p) * (unity() - quanta(p)) == 0,
    ensures
        quanta(proportion_variance(a, p, n)) == 0,
{
    lemma_constants();
    let rest = eval(a, Op::Sub(one(), p));
    let product = eval(a, Op::Mul(p, rest));
    let (q, u) = (quanta(p), unity());
    lemma_quanta_order(zero(), p);
    lemma_quanta_order(p, one());
    assert(q == 0 || q == u) by (nonlinear_arith)
        requires
            q * (u - q) == 0,
    ;
    lemma_at_least(rest, zero(), u - q, 1);
    lemma_at_most(rest, one(), u - q, 1);
    if q == u {
        lemma_exact(rest, zero(), 0, 1);
    }
    assert(q * quanta(rest) == 0 && 0 == 0 * u) by (nonlinear_arith)
        requires
            q == 0 || quanta(rest) == 0,
    ;
    lemma_exact(product, zero(), 0, u);
    let count = eval(a, Op::Of(n));
    assert(count.finite() && quanta(count) == n * u) by {
        lemma_orders(a);
    }
    lemma_mul_inequality(1, n as int, u);
    lemma_quanta_order(count, zero());
    assert(0 * u == 0 && 0 * quanta(count) == 0) by (nonlinear_arith);
    lemma_exact(proportion_variance(a, p, n), zero(), 0, quanta(count));
}

/// The exact variance of a gap between two proportions, times the product of
/// their counts and in the square of the quanta of 1.
pub open spec fn gap_variance(p1: Double, n1: u64, p2: Double, n2: u64) -> int {
    let (q1, q2, u) = (quanta(p1), quanta(p2), unity());
    q1 * (u - q1) * n2 + q2 * (u - q2) * n1
}

/// The computed sum of the variances against the exact one.
proof fn lemma_both_variances<A: Fn(Op) -> Double>(
    a: A,
    p1: Double,
    n1: u64,
    p2: Double,
    n2: u64,
)
    requires
        rounds(a),
        in_unit(p1),
        in_unit(p2),
        0 < n1 <= EXACT,
        0 < n2 <= EXACT,
    ensures
        ({
            let both = eval(
                a,
                Op::Add(proportion_variance(a, p1, n1), proportion_variance(a, p2, n2)),
            );
            let w = gap_variance(p1, n1, p2, n2);
            let (n, u) = (n1 * n2, unity());
            &&& both.finite()
            &&& nonnegative(both)
            &&& quanta(both) >= 0
            &&& w >= 0
            &&& w == 0 ==> quanta(both) == 0
            &&& EXACT * (quanta(both) * u * n) <= (EXACT + 7) * (w + 4 * (n * u))
            &&& (EXACT - 4) * w <= EXACT * (quanta(both) * u * n + 4 * (n * u))
        }),
{
    lemma_constants();
    lemma_variance(a, p1, n1);
    lemma_variance(a, p2, n2);
    let (v, y) = (proportion_variance(a, p1, n1), proportion_variance(a, p2, n2));
    let both = eval(a, Op::Add(v, y));
    let (s, t, u, e, b) = (quanta(v), quanta(y), unity(), EXACT as int, quanta(both));
    let (m, k, n) = (n1 as int, n2 as int, n1 * n2);
    lemma_at_least(both, zero(), s + t, 1);
    lemma_at_most(both, Double { bits: TWO }, s + t, 1);
    lemma_quanta_order(zero(), both);
    lemma_relative(both, s + t, 1);
    lemma_off(e, b, s + t, distance(b, s + t));
    let (x1, x2) = (quanta(p1) * (u - quanta(p1)), quanta(p2) * (u - quanta(p2)));
    let w = gap_variance(p1, n1, p2, n2);
    assert(w == x1 * k + x2 * m);
    lemma_mul_nonnegative(x1, k);
    lemma_mul_nonnegative(x2, m);
    if w == 0 {
        assert(x1 == 0) by (nonlinear_arith)
            requires
                x1 * k == 0,
                k > 0,
        ;
        assert(x2 == 0) by (nonlinear_arith)
            requires
                x2 * m == 0,
                m > 0,
        ;
        lemma_exact(both, zero(), 0, 1);
    }
    // Over the common denominator.
    let (l1, l2) = (u + m * u, u + k * u);
    lemma_times(e, s * (m * u), e + 5, x1 + l1, k);
    lemma_times(e, t * (k * u), e + 5, x2 + l2, m);
    lemma_times(e - 3, x1, e, s * (m * u) + l1, k);
    lemma_times(e - 3, x2, e, t * (k * u) + l2, m);
    let least = l1 * k + l2 * m;
    assert(n == m * k);
    assert(s * (m * u) * k == s * u * n && t * (k * u) * m == t * u * n) by (nonlinear_arith)
        requires
            n == m * k,
    ;
    assert((x1 + l1) * k == x1 * k + l1 * k) by (nonlinear_arith);
    assert((x2 + l2) * m == x2 * m + l2 * m) by (nonlinear_arith);
    assert((s * (m * u) + l1) * k == s * (m * u) * k + l1 * k) by (nonlinear_arith);
    assert((t * (k * u) + l2) * m == t * (k * u) * m + l2 * m) by (nonlinear_arith);
    let (sn, tn) = (s * u * n, t * u * n);
    lemma_added(e, e + 5, sn, x1 * k + l1 * k, tn, x2 * m + l2 * m);
    lemma_added(e - 3, e, x1 * k, sn + l1 * k, x2 * m, tn + l2 * m);
    assert(0 <= least <= 4 * (n * u)) by (nonlinear_arith)
        requires
            least == (u + m * u) * k + (u + k * u) * m,
            n == m * k,
            m >= 1,
            k >= 1,
            u > 0,
    ;
    let four = 4 * (n * u);
    assert(sn + tn == (s + t) * u * n) by (nonlinear_arith)
        requires
            sn == s * u * n,
            tn == t * u * n,
    ;
    lemma_mul_inequality(w + least, w + four, e + 5);
    lemma_mul_is_commutative(w + least, e + 5);
    lemma_mul_is_commutative(w + four, e + 5);
    lemma_mul_inequality(sn + tn + least, sn + tn + four, e);
    lemma_mul_is_commutative(sn + tn + least, e);
    lemma_mul_is_commutative(sn + tn + four, e);
    // The rounding of the sum.
    let un = u * n;
    lemma_mul_nonnegative(m, k);
    lemma_mul_nonnegative(u, n);
    lemma_times(e, b, e + 1, s + t, un);
    lemma_times(e - 1, s + t, e, b, un);
    lemma_mul_is_associative(b, u, n);
    lemma_mul_is_associative(s + t, u, n);
    lemma_chain(e, b * u * n, sn + tn, w + four, 1, 5);
    lemma_mul_inequality(e - 1, e, four);
    lemma_added(e - 1, e, sn + tn, b * u * n, four, four);
    lemma_chain_down(e, b * u * n + four, sn + tn + four, w, 1, 3);
}

/// The square of the computed deviation of the gap against the exact variance.
proof fn lemma_spread<A: Fn(Op) -> Double>(a: A, p1: Double, n1: u64, p2: Double, n2: u64)
    requires
        rounds(a),
        in_unit(p1),
        in_unit(p2),
        0 < n1 <= EXACT,
        0 < n2 <= EXACT,
    ensures
        ({
            let se = eval(
                a,
                Op::Sqrt(
                    eval(
                        a,
                        Op::Add(proportion_variance(a, p1, n1), proportion_variance(a, p2, n2)),
                    ),
                ),
            );
            let w = gap_variance(p1, n1, p2, n2);
            let (n, u, r) = (n1 * n2, unity(), quanta(se));
            &&& se.finite()
            &&& nonnegative(se)
            &&& r >= 0
            &&& w == 0 ==> r == 0
            &&& w >= 4 * EXACT * n * u ==> {
                &&& EXACT * (r * r * n) <= (EXACT + 15) * w
                &&& (EXACT - 9) * w <= EXACT * (r * r * n)
                &&& u <= r * r
            }
        }),
{
    lemma_both_variances(a, p1, n1, p2, n2);
    lemma_constants();
    let both = eval(a, Op::Add(proportion_variance(a, p1, n1), proportion_variance(a, p2, n2)));
    let se = eval(a, Op::Sqrt(both));
    lemma_root_of(a, both);
    lemma_quanta_order(zero(), se);
    let w = gap_variance(p1, n1, p2, n2);
    let (n, u, e, b, r) = (n1 * n2, unity(), EXACT as int, quanta(both), quanta(se));
    assert(n >= 1) by (nonlinear_arith)
        requires
            n == n1 * n2,
            n1 >= 1,
            n2 >= 1,
    ;
    if w == 0 {
        assert(r == 0) by (nonlinear_arith)
            requires
                e * (r * r) <= (e + 5) * (b * u),
                b == 0,
                e > 0,
        ;
    }
    if w >= 4 * EXACT * n * u {
        let four = 4 * (n * u);
        lemma_mul_nonnegative(n, u);
        assert(e * four <= w) by (nonlinear_arith)
            requires
                w >= 4 * e * n * u,
                four == 4 * (n * u),
        ;
        let (s, bn) = (r * r * n, b * u * n);
        lemma_times(e, r * r, e + 5, b * u, n);
        lemma_times(e - 4, b * u, e, r * r, n);
        // Up.
        lemma_chain(e, s, bn, w + four, 5, 7);
        assert(e * (w + four) <= (e + 1) * w) by (nonlinear_arith)
            requires
                e * four <= w,
        ;
        lemma_chain(e, s, w + four, w, 13, 1);
        // Down.
        lemma_mul_inequality(e - 4, e, four);
        lemma_added(e - 4, e, bn, s, four, four);
        lemma_chain_down(e, s + four, bn + four, w, 4, 4);
        assert((e - 9) * w <= e * s) by (nonlinear_arith)
            requires
                (e - 8) * w <= e * (s + four),
                e * four <= w,
        ;
        assert(u <= r * r) by {
            let q = r * r;
            assert(2 * ((e - 9) * w) >= e * w) by (nonlinear_arith)
                requires
                    e >= 18,
                    w >= 0,
            ;
            assert(w <= 2 * s) by (nonlinear_arith)
                requires
                    e * w <= 2 * (e * s),
                    e > 0,
            ;
            assert(four <= e * four) by (nonlinear_arith)
                requires
                    e >= 1,
                    four >= 0,
            ;
            assert(u <= q) by (nonlinear_arith)
                requires
                    4 * (n * u) <= 2 * (q * n),
                    n >= 1,
                    u >= 0,
                    q >= 0,
            ;
        }
    }
}

/// A bound between numbers that are not negative, as one between their squares.
proof fn lemma_square_of_bound(p: int, x: int, y: int)
    requires
        p >= 4,
        x >= 0,
        y >= 0,
    ensures
        p * x <= (p + 1) * y ==> p * (x * x) <= (p + 3) * (y * y),
        (p - 1) * y <= p * x ==> (p - 2) * (y * y) <= p * (x * x),
{
    lemma_mul_nonnegative(y, y);
    lemma_mul_is_commutative(x, y);
    if p * x <= (p + 1) * y {
        lemma_times(p, x, p + 1, y, x);
        lemma_times(p, x, p + 1, y, y);
        lemma_chain(p, x * x, x * y, y * y, 1, 1);
    }
    if (p - 1) * y <= p * x {
        lemma_times(p - 1, y, p, x, x);
        lemma_times(p - 1, y, p, x, y);
        lemma_chain_down(p, x * x, x * y, y * y, 1, 1);
    }
}

/// A quotient against its parts: a quantum less or more covers what it is off
/// by next to nothing.
proof fn lemma_quotient<A: Fn(Op) -> Double>(a: A, gap: Double, se: Double)
    requires
        rounds(a),
        gap.finite(),
        se.finite(),
        nonnegative(se),
        unity() <= quanta(se) * quanta(se),
        -unity() <= quanta(gap) <= unity(),
    ensures
        ({
            let z = eval(a, Op::Div(gap, se)).absolute();
            let (r, d, m) = (quanta(se), distance(quanta(gap), 0), quanta(z));
            &&& r > 0
            &&& z.finite()
            &&& nonnegative(z)
            &&& m >= 0
            &&& EXACT * ((m - 1) * r) <= (EXACT + 1) * (d * unity())
            &&& (EXACT - 1) * (d * unity()) <= EXACT * ((m + 1) * r)
        }),
{
    lemma_constants();
    let raw = eval(a, Op::Div(gap, se));
    let z = raw.absolute();
    let (g, r, u, e) = (quanta(gap), quanta(se), unity(), EXACT as int);
    let d = distance(g, 0);
    lemma_quanta_order(zero(), se);
    lemma_pow2_pos(1074);
    lemma_pow2_adds(537, 537);
    assert(r >= pow2(537)) by {
        if r < pow2(537) {
            lemma_squares_order(r, pow2(537) as int);
        }
    }
    lemma_pow2_pos(537);
    lemma_quanta_order(se, zero());
    lemma_pow2_strictly_increases(1700, 2097);
    let top = lemma_multiple(1, 1700);
    lemma_pow2_adds(1700, 537);
    lemma_pow2_adds(1074, 1074);
    lemma_pow2_strictly_increases(2148, 2237);
    let t = quanta(top);
    assert(u * u <= t * r) by {
        lemma_mul_inequality(pow2(537) as int, r, t);
        lemma_mul_is_commutative(t, r);
        lemma_mul_is_commutative(t, pow2(537) as int);
    }
    assert(-(u * u) <= g * u <= u * u) by (nonlinear_arith)
        requires
            -u <= g <= u,
            u >= 0,
    ;
    lemma_around(raw, g * u, r, top);
    lemma_relative(raw, g * u, r);
    let (q, m) = (quanta(raw), quanta(z));
    assert(m == distance(q, 0));
    let (x, y) = (m * r, d * u);
    let off = distance(q * r, g * u);
    assert(distance(g * u, 0) == y) by {
        lemma_scaled(g, 0, u);
    }
    assert(distance(q * r, 0) == x) by {
        lemma_scaled(q, 0, r);
    }
    assert(x <= y + off && y <= x + off);
    lemma_mul_inequality(x, y + off, e);
    lemma_mul_inequality(y, x + off, e);
    assert((m - 1) * r == x - r && (m + 1) * r == x + r) by (nonlinear_arith)
        requires
            x == m * r,
    ;
    assert(e * (x - r) <= (e + 1) * y && (e - 1) * y <= e * (x + r)) by (nonlinear_arith)
        requires
            x * e <= (y + off) * e,
            y * e <= (x + off) * e,
            2 * (e * off) <= 2 * y + e * r,
            e > 0,
            r > 0,
    ;
}

/// Both tails beyond `z`, as twice what the normal probability leaves: one less
/// the error function of `z` over the square root of two.
proof fn lemma_tails<A: Fn(Op) -> Double>(a: A, z: Double)
    requires
        rounds(a),
        nonnegative(z),
    ensures
        ({
            let left = eval(a, Op::Sub(Double { bits: ONE }, normal_cdf(a, z)));
            let tails = eval(a, Op::Mul(Double { bits: TWO }, left));
            let e = eval(a, Op::Erf(eval(a, Op::Mul(z, Double { bits: FRAC_1_SQRT_2 }))));
            &&& tails.finite()
            &&& e.finite()
            &&& distance(quanta(tails), unity() - quanta(e)) <= pow2(1023)
        }),
{
    lemma_constants();
    law_normal_probability(a, z);
    let below = normal_cdf(a, z);
    let left = eval(a, Op::Sub(Double { bits: ONE }, below));
    let tails = eval(a, Op::Mul(Double { bits: TWO }, left));
    let (f, u) = (quanta(below), unity());
    lemma_pow2_unfold(1021);
    lemma_pow2_unfold(1022);
    lemma_pow2_unfold(1023);
    let k = pow2(1021) as int;
    assert(2 * FRACTION * k * 1 == u);
    lemma_error(left, u - f, 1, 1021);
    lemma_at_least(left, zero(), u - f, 1);
    lemma_at_most(left, one(), u - f, 1);
    lemma_quanta_order(zero(), left);
    lemma_quanta_order(left, one());
    let l = quanta(left);
    assert(0 <= (2 * u) * l <= 2 * FRACTION * pow2(1022) * u) by (nonlinear_arith)
        requires
            u == 2 * FRACTION * k,
            pow2(1022) == 2 * k,
            0 <= l <= u,
            u > 0,
    ;
    lemma_error(tails, (2 * u) * l, u, 1022);
    let p = quanta(tails);
    lemma_scaled(p, 2 * l, u);
    assert((2 * u) * l == (2 * l) * u) by (nonlinear_arith);
    let off = distance(p, 2 * l);
    assert(off <= k) by (nonlinear_arith)
        requires
            2 * (off * u) <= (2 * k) * u,
            u > 0,
    ;
}

/// The p-value of two proportions is the probability that a normal variable
/// lies further from its mean than `z` deviations: one less the error function
/// of `z` over the square root of two, to within two to the minus 51st. And the
/// square of that `z`, times the variance of the gap (each proportion times what
/// it lacks to 1, over its count), is the square of the gap between the
/// proportions, to within twenty units of the precision on either side and one
/// quantum of `z`. Where the counts are at least 30, for all proportions whose
/// variance is not below about two to the minus 1019th.
pub proof fn law_p_value_is_of_the_standardized_gap<A: Fn(Op) -> Double>(
    a: A,
    p1: Double,
    n1: u64,
    p2: Double,
    n2: u64,
)
    requires
        rounds(a),
        in_unit(p1),
        in_unit(p2),
        30 <= n1 <= EXACT,
        30 <= n2 <= EXACT,
        quanta(p1) * (unity() - quanta(p1)) * n2 + quanta(p2) * (unity() - quanta(p2)) * n1 >= 4
            * EXACT * (n1 * n2) * unity(),
    ensures
        exists|z: Double|
            {
                let e = #[trigger] eval(
                    a,
                    Op::Erf(eval(a, Op::Mul(z, Double { bits: FRAC_1_SQRT_2 }))),
                );
                let (q1, q2, u, m) = (quanta(p1), quanta(p2), unity(), quanta(z));
                let variance = q1 * (u - q1) * n2 + q2 * (u - q2) * n1;
                let gap = (q1 - q2) * (q1 - q2) * (u * u) * (n1 * n2);
                let fewer = if m >= 1 {
                    m - 1
                } else {
                    0
                };
                &&& z.finite()
                &&& m >= 0
                &&& distance(quanta(p_value(a, p1, n1, p2, n2)), u - quanta(e)) <= pow2(1023)
                &&& (EXACT - 20) * (fewer * fewer * variance) <= (EXACT + 20) * gap
                &&& (EXACT - 20) * gap <= (EXACT + 20) * ((m + 1) * (m + 1) * variance)
            },
{
    lemma_constants();
    let both = eval(a, Op::Add(proportion_variance(a, p1, n1), proportion_variance(a, p2, n2)));
    let se = eval(a, Op::Sqrt(both));
    let gap = eval(a, Op::Sub(p1, p2));
    let z = eval(a, Op::Div(gap, se)).absolute();
    let w = gap_variance(p1, n1, p2, n2);
    let (q1, q2, u, e, n) = (quanta(p1), quanta(p2), unity(), EXACT as int, n1 * n2);
    assert(w == q1 * (u - q1) * n2 + q2 * (u - q2) * n1);
    lemma_spread(a, p1, n1, p2, n2);
    lemma_quanta_order(zero(), p1);
    lemma_quanta_order(p1, one());
    lemma_quanta_order(zero(), p2);
    lemma_quanta_order(p2, one());
    assert(1 * u == u);
    lemma_around(gap, q1 - q2, 1, one());
    lemma_relative(gap, q1 - q2, 1);
    let (g, r, m) = (quanta(gap), quanta(se), quanta(z));
    lemma_quotient(a, gap, se);
    lemma_quanta_order(se, zero());
    assert(!se.equal(Double { bits: ZERO }));
    lemma_tails(a, z);
    // The gap.
    let (d, h) = (distance(g, 0), q1 - q2);
    lemma_difference_squared(e, g, h);
    let fewer = if m >= 1 {
        m - 1
    } else {
        0
    };
    lemma_standardized(e, u, n, w, r, d, h, m, fewer, g);
    assert(quanta(p_value(a, p1, n1, p2, n2)) == quanta(
        eval(
            a,
            Op::Mul(
                Double { bits: TWO },
                eval(a, Op::Sub(Double { bits: ONE }, normal_cdf(a, z))),
            ),
        ),
    ));
    let w0 = eval(a, Op::Erf(eval(a, Op::Mul(z, Double { bits: FRAC_1_SQRT_2 }))));
    assert(w0.finite());
}

/// From the bounds on the deviation, on the gap and on the quotient to the one
/// between the squares: `e` the precision, `w` the variance, `r` the deviation,
/// `g` the computed gap of size `d`, `h` the exact one, `m` the quotient.
proof fn lemma_standardized(
    e: int,
    u: int,
    n: int,
    w: int,
    r: int,
    d: int,
    h: int,
    m: int,
    fewer: int,
    g: int,
)
    requires
        e == EXACT,
        u > 0,
        n >= 0,
        w >= 0,
        r > 0,
        d == distance(g, 0),
        m >= 0,
        fewer == (if m >= 1 {
            m - 1
        } else {
            0
        }),
        e * (r * r * n) <= (e + 15) * w,
        (e - 9) * w <= e * (r * r * n),
        e * (g * g) <= (e + 3) * (h * h),
        (e - 2) * (h * h) <= e * (g * g),
        e * ((m - 1) * r) <= (e + 1) * (d * u),
        (e - 1) * (d * u) <= e * ((m + 1) * r),
    ensures
        (e - 20) * (fewer * fewer * w) <= (e + 20) * (h * h * (u * u) * n),
        (e - 20) * (h * h * (u * u) * n) <= (e + 20) * ((m + 1) * (m + 1) * w),
{
    let (more, y) = (m + 1, d * u);
    let (f2, m2, r2, h2) = (fewer * fewer, more * more, r * r, h * h);
    lemma_mul_nonnegative(d, u);
    lemma_mul_nonnegative(fewer, r);
    lemma_mul_nonnegative(more, r);
    assert(h2 >= 0) by (nonlinear_arith)
        requires
            h2 == h * h,
    ;
    lemma_mul_nonnegative(fewer, fewer);
    lemma_mul_nonnegative(more, more);
    lemma_mul_nonnegative(r, r);
    lemma_mul_nonnegative(u, u);
    assert(e * (fewer * r) <= (e + 1) * y) by {
        if m < 1 {
            assert(fewer * r == 0);
            lemma_mul_nonnegative(e + 1, y);
        }
    }
    lemma_square_of_bound(e, fewer * r, y);
    lemma_square_of_bound(e, more * r, y);
    let uu = u * u;
    let gu = g * g * uu;
    let hu = h2 * uu;
    assert(y * y == gu) by (nonlinear_arith)
        requires
            y == d * u,
            d == g || d == -g,
            uu == u * u,
            gu == g * g * uu,
    ;
    assert((fewer * r) * (fewer * r) == f2 * r2 && (more * r) * (more * r) == m2 * r2)
        by (nonlinear_arith)
        requires
            f2 == fewer * fewer,
            m2 == more * more,
            r2 == r * r,
    ;
    lemma_times(e, g * g, e + 3, h2, uu);
    lemma_times(e - 2, h2, e, g * g, uu);
    lemma_mul_nonnegative(h2, uu);
    lemma_chain(e, f2 * r2, gu, hu, 3, 3);
    lemma_chain_down(e, m2 * r2, gu, hu, 2, 2);
    let hn = hu * n;
    lemma_mul_nonnegative(hu, n);
    lemma_times(e, f2 * r2, e + 7, hu, n);
    lemma_times(e - 4, hu, e, m2 * r2, n);
    // Against the variance.
    let rn = r2 * n;
    lemma_times(e - 9, w, e, rn, f2);
    lemma_times(e, rn, e + 15, w, m2);
    lemma_mul_is_associative(f2, r2, n);
    lemma_mul_is_associative(m2, r2, n);
    lemma_mul_is_commutative(rn, f2);
    lemma_mul_is_commutative(rn, m2);
    lemma_mul_is_commutative(w, f2);
    lemma_mul_is_commutative(w, m2);
    lemma_mul_nonnegative(f2, w);
    lemma_mul_nonnegative(m2, w);
    lemma_mul_inequality(e - 20, e - 9, f2 * w);
    lemma_mul_inequality(e + 7, e + 20, hn);
    lemma_mul_inequality(e - 20, e - 4, hn);
    lemma_mul_inequality(e + 15, e + 20, m2 * w);
}

/// Where neither proportion varies, being 0 or 1, no noise explains a gap
/// between them: the p-value is 1 if there is none, and 0 if there is one.
pub proof fn law_without_variance_a_gap_is_certain<A: Fn(Op) -> Double>(
    a: A,
    p1: Double,
    n1: u64,
    p2: Double,
    n2: u64,
)
    requires
        rounds(a),
        in_unit(p1),
        in_unit(p2),
        30 <= n1 <= EXACT,
        30 <= n2 <= EXACT,
        quanta(p1) == 0 || quanta(p1) == unity(),
        quanta(p2) == 0 || quanta(p2) == unity(),
    ensures
        quanta(p_value(a, p1, n1, p2, n2)) == (if quanta(p1) == quanta(p2) {
            unity()
        } else {
            0
        }),
{
    lemma_constants();
    let (q1, q2, u) = (quanta(p1), quanta(p2), unity());
    assert(q1 * (u - q1) == 0 && q2 * (u - q2) == 0) by (nonlinear_arith)
        requires
            q1 == 0 || q1 == u,
            q2 == 0 || q2 == u,
    ;
    assert(gap_variance(p1, n1, p2, n2) == 0);
    lemma_spread(a, p1, n1, p2, n2);
    let both = eval(a, Op::Add(proportion_variance(a, p1, n1), proportion_variance(a, p2, n2)));
    let se = eval(a, Op::Sqrt(both));
    lemma_quanta_order(se, zero());
    lemma_quanta_order(zero(), se);
    assert(se.equal(Double { bits: ZERO }));
    lemma_quanta_order(p1, p2);
    lemma_quanta_order(p2, p1);
}

/// Thirty trials on each side are what it takes, and a proportion that is a
/// number: without, the p-value is no number.
pub proof fn law_few_trials_decide_nothing<A: Fn(Op) -> Double>(
    a: A,
    p1: Double,
    n1: u64,
    p2: Double,
    n2: u64,
)
    requires
        n1 < 30 || n2 < 30 || p1.nan() || p2.nan(),
    ensures
        p_value(a, p1, n1, p2, n2).nan(),
{
}

} // verus!
