//! Square roots that are rounded to the nearest number.

use crate::bounds::lemma_exact_is_a_power;
use crate::double::{eval, Double, Op, FRACTION};
use crate::ieee::{
    grid, is_nearest_root, lemma_below_overflow, lemma_constants, lemma_grid, lemma_quanta_order,
    nonnegative, overflow, quanta, rounds, unity, zero, EXACT,
};
use crate::precision::{lemma_squared, lemma_squared_down};
use vstd::arithmetic::mul::{
    lemma_mul_inequality, lemma_mul_is_commutative, lemma_mul_nonnegative,
    lemma_mul_strict_inequality,
};
use vstd::arithmetic::power2::{
    lemma2_to64, lemma_pow2_adds, lemma_pow2_pos, lemma_pow2_strictly_increases, lemma_pow2_unfold,
    pow2,
};
use vstd::prelude::*;

verus! {

/// The square of `k` steps.
#[verifier::opaque]
pub open spec fn tile(k: int, step: int) -> int {
    (k * step) * (k * step)
}

/// Squares are in the order of what is squared.
pub proof fn lemma_squares_order(x: int, y: int)
    requires
        0 <= x <= y,
    ensures
        x * x <= y * y,
        x < y ==> x * x < y * y,
        x * x >= 0,
{
    lemma_mul_inequality(x, y, x);
    lemma_mul_inequality(x, y, y);
    lemma_mul_is_commutative(x, y);
    lemma_mul_nonnegative(x, x);
    if x < y {
        lemma_mul_strict_inequality(x, y, y);
    }
}

/// The whole part of a root on a grid.
proof fn lemma_root_floor(square: int, step: int, k: int) -> (i: int)
    requires
        square >= 0,
        k >= 0,
        square < tile(k + 1, step),
    ensures
        0 <= i <= k,
        tile(i, step) <= square < tile(i + 1, step),
    decreases k,
{
    if tile(k, step) <= square {
        k
    } else {
        if k == 0 {
            reveal(tile);
            assert(0 * step == 0) by (nonlinear_arith);
            assert(false);
        }
        lemma_root_floor(square, step, k - 1)
    }
}

/// The smallest grid that covers a root.
pub proof fn lemma_root_binade(square: int, j: nat) -> (i: nat)
    requires
        square < tile(2 * FRACTION as int, pow2(j) as int),
    ensures
        i <= j,
        square < tile(2 * FRACTION as int, pow2(i) as int),
        i > 0 ==> tile(FRACTION as int, pow2(i) as int) <= square,
    decreases j,
{
    if j == 0 {
        0
    } else {
        let k = (j - 1) as nat;
        lemma_pow2_unfold(j);
        assert(tile(2 * FRACTION as int, pow2(k) as int) == tile(
            FRACTION as int,
            pow2(j) as int,
        )) by {
            reveal(tile);
            assert(2 * FRACTION as int * pow2(k) == FRACTION as int * pow2(j));
        }
        if square < tile(2 * FRACTION as int, pow2(k) as int) {
            lemma_root_binade(square, k)
        } else {
            j
        }
    }
}

/// Rounding a root does not cross a number.
pub proof fn lemma_root_order(r: Double, square: int, d: Double)
    requires
        is_nearest_root(r, square),
        d.finite(),
        nonnegative(d),
    ensures
        quanta(r) >= 0,
        quanta(d) * quanta(d) <= square ==> quanta(d) <= quanta(r),
        square <= quanta(d) * quanta(d) ==> quanta(r) <= quanta(d),
{
    lemma_constants();
    lemma_quanta_order(zero(), r);
    lemma_quanta_order(zero(), d);
    let (q, e) = (quanta(r), quanta(d));
    assert((2 * e) * (2 * e) == 4 * (e * e)) by (nonlinear_arith);
    if e > q {
        lemma_squares_order(q + e, 2 * e);
    }
    if e < q {
        lemma_squares_order(2 * e, q + e);
    }
}

/// A computed root, squared, is off by at most five units of the precision, as
/// long as it lies on a grid of full precision.
pub proof fn lemma_root(r: Double, square: int, j: nat)
    requires
        is_nearest_root(r, square),
        j <= 2000,
        tile(FRACTION as int, pow2(j) as int) <= square,
        square < tile(2 * FRACTION as int, pow2(j) as int),
    ensures
        EXACT * (quanta(r) * quanta(r)) <= (EXACT + 5) * square,
        (EXACT - 4) * square <= EXACT * (quanta(r) * quanta(r)),
{
    let (f, step, p) = (FRACTION as int, pow2(j) as int, EXACT as int);
    lemma_pow2_pos(j);
    lemma_constants();
    assert(tile(f, step) >= 0) by {
        reveal(tile);
        lemma_mul_nonnegative(f, step);
        lemma_squares_order(0, f * step);
    }
    let i = lemma_root_floor(square, step, 2 * f - 1);
    if i < f {
        reveal(tile);
        lemma_mul_inequality(i + 1, f, step);
        lemma_mul_nonnegative(i + 1, step);
        lemma_squares_order((i + 1) * step, f * step);
        assert(false);
    }
    let (lo, hi) = (
        Double { bits: grid(i, j) as u64 },
        Double { bits: grid(i + 1, j) as u64 },
    );
    lemma_grid(i, j);
    lemma_grid(i + 1, j);
    let (q, l, h) = (quanta(r), quanta(lo), quanta(hi));
    assert(l * l <= square < h * h) by {
        reveal(tile);
    }
    lemma_root_order(r, square, lo);
    lemma_root_order(r, square, hi);
    assert(l <= q <= h);
    lemma_mul_inequality(f, i, step);
    assert(h == l + step) by (nonlinear_arith)
        requires
            l == i * step,
            h == (i + 1) * step,
    ;
    lemma_mul_nonnegative(f, step);
    lemma_step_is_small(p, f, l, h, step);
    lemma_squares_order(q, h);
    lemma_squares_order(l, q);
    lemma_squared(p, h, l);
    lemma_squared_down(p, l, h);
    lemma_mul_inequality(q * q, h * h, p);
    lemma_mul_inequality(l * l, square, p + 5);
    lemma_mul_inequality(l * l, q * q, p);
    lemma_mul_inequality(square, h * h, p - 4);
    lemma_mul_is_commutative(p, q * q);
    lemma_mul_is_commutative(p, h * h);
    lemma_mul_is_commutative(p, l * l);
    lemma_mul_is_commutative(p + 5, l * l);
    lemma_mul_is_commutative(p + 5, square);
    lemma_mul_is_commutative(p - 4, square);
    lemma_mul_is_commutative(p - 4, h * h);
}

/// A computed root of a number, squared, is the number in the unit of a
/// product, up to five units of the precision.
pub proof fn lemma_root_of<A: Fn(Op) -> Double>(a: A, x: Double)
    requires
        rounds(a),
        x.finite(),
        nonnegative(x),
    ensures
        ({
            let r = eval(a, Op::Sqrt(x));
            let square = quanta(x) * unity();
            &&& r.finite()
            &&& nonnegative(r)
            &&& EXACT * (quanta(r) * quanta(r)) <= (EXACT + 5) * square
            &&& (EXACT - 4) * square <= EXACT * (quanta(r) * quanta(r))
        }),
{
    let r = eval(a, Op::Sqrt(x));
    let (v, u) = (quanta(x), unity());
    lemma_constants();
    lemma_quanta_order(zero(), x);
    if v == 0 {
        assert(0 * u == 0 && 0 * 0 == 0);
        lemma_root_order(r, 0, zero());
    } else {
        lemma_mul_inequality(1, v, u);
        lemma_root_range();
        lemma_below_overflow(x);
        lemma_mul_inequality(v, overflow(), u);
        let i = lemma_root_binade(v * u, 1600);
        lemma_root(r, v * u, i);
    }
}

/// The roots of all positive numbers lie on grids of full precision.
proof fn lemma_root_range()
    ensures
        overflow() * unity() < tile(2 * FRACTION as int, pow2(1600) as int),
        tile(2 * FRACTION as int, pow2(0) as int) <= unity(),
{
    let f = FRACTION as int;
    lemma2_to64();
    lemma_exact_is_a_power();
    lemma_pow2_pos(2044);
    assert(2 * f == pow2(53));
    assert(tile(2 * f, pow2(0) as int) == pow2(106)) by {
        reveal(tile);
        lemma_pow2_adds(53, 53);
        assert((2 * f) * 1 == 2 * f);
    }
    lemma_pow2_strictly_increases(106, 1074);
    assert(tile(2 * f, pow2(1600) as int) == pow2(3306)) by {
        reveal(tile);
        lemma_pow2_adds(53, 1600);
        lemma_pow2_adds(1653, 1653);
    }
    lemma_pow2_adds(54, 2044);
    lemma_pow2_unfold(54);
    assert(overflow() <= pow2(2098)) by {
        let q = pow2(2044) as int;
        assert((4 * f - 1) * q <= (4 * f) * q) by {
            lemma_mul_inequality(4 * f - 1, 4 * f, q);
        }
    }
    lemma_constants();
    lemma_pow2_adds(2098, 1074);
    lemma_mul_inequality(overflow(), pow2(2098) as int, unity());
    lemma_pow2_strictly_increases(3172, 3306);
}

/// A step is at most two units of the precision of the lower number.
proof fn lemma_step_is_small(p: int, f: int, l: int, h: int, step: int)
    requires
        p == 2 * f,
        f > 0,
        step > 0,
        h == l + step,
        f * step <= l,
    ensures
        p * h <= (p + 2) * l,
        (p - 2) * h <= p * l,
{
    assert(p * h == p * l + 2 * (f * step)) by (nonlinear_arith)
        requires
            p == 2 * f,
            h == l + step,
    ;
    assert((p + 2) * l == p * l + 2 * l && (p - 2) * h == p * h - 2 * h) by (nonlinear_arith);
}

} // verus!
