//! What rounding does to a result relative to its size, and how such errors
//! add up.
//!
//! `EXACT` is two to the number of bits of precision: a relative error is
//! counted in parts of it.

use crate::double::{Double, FRACTION};
use crate::ieee::{
    distance, grid, lemma_at_least, lemma_at_most, lemma_below_overflow, lemma_constants,
    lemma_error, lemma_exact, lemma_grid, lemma_negated, lemma_quanta_order, negated, overflow,
    quanta, rounded, zero, EXACT,
};
use vstd::arithmetic::mul::{
    lemma_mul_inequality, lemma_mul_is_associative, lemma_mul_is_commutative,
    lemma_mul_is_distributive_add, lemma_mul_is_distributive_add_other_way, lemma_mul_nonnegative,
};
use vstd::arithmetic::power2::{
    lemma2_to64, lemma_pow2_adds, lemma_pow2_pos, lemma_pow2_unfold, pow2,
};
use vstd::prelude::*;

verus! {

/// The smallest grid that covers a fraction.
proof fn lemma_binade(num: int, den: int, j: nat) -> (i: nat)
    requires
        den > 0,
        num <= 2 * FRACTION * pow2(j) * den,
    ensures
        i <= j,
        num <= 2 * FRACTION * pow2(i) * den,
        i > 0 ==> FRACTION * pow2(i) * den < num,
    decreases j,
{
    if j == 0 {
        0
    } else {
        let k = (j - 1) as nat;
        lemma_pow2_unfold(j);
        let f = FRACTION as int;
        assert(2 * f * pow2(k) * den == f * pow2(j) * den) by (nonlinear_arith)
            requires
                pow2(j) == 2 * pow2(k),
        ;
        if num <= 2 * f * pow2(k) * den {
            lemma_binade(num, den, k)
        } else {
            j
        }
    }
}

/// A rounded result is off by at most a unit of the precision, or by half a
/// quantum; integers are off by no more than the former.
pub proof fn lemma_relative(r: Double, num: int, den: int)
    requires
        rounded(r, num, den),
        den > 0,
        r.finite(),
    ensures
        2 * (EXACT * distance(quanta(r) * den, num)) <= 2 * distance(num, 0) + EXACT * den,
        den == 1 ==> EXACT * distance(quanta(r), num) <= distance(num, 0),
{
    if num < 0 {
        lemma_negated(r, num, den);
        let n = negated(r);
        lemma_relative_up(n, -num, den);
        let (p, q) = (quanta(r), quanta(n));
        assert(n.finite() && q == -p);
        assert((-p) * den == -(p * den)) by (nonlinear_arith);
    } else {
        lemma_relative_up(r, num, den);
    }
}

proof fn lemma_relative_up(r: Double, num: int, den: int)
    requires
        rounded(r, num, den),
        den > 0,
        r.finite(),
        num >= 0,
    ensures
        2 * (EXACT * distance(quanta(r) * den, num)) <= 2 * num + EXACT * den,
        den == 1 ==> EXACT * distance(quanta(r), num) <= num,
{
    let f = FRACTION as int;
    let t = overflow();
    lemma_pow2_unfold(2045);
    lemma_pow2_pos(2044);
    assert(num <= 2 * f * pow2(2045) * den) by (nonlinear_arith)
        requires
            num < t * den,
            t == (4 * f - 1) * pow2(2044),
            pow2(2045) == 2 * pow2(2044),
            den > 0,
    ;
    let i = lemma_binade(num, den, 2045);
    lemma_error(r, num, den, i);
    lemma2_to64();
    let d = distance(quanta(r) * den, num);
    let p = EXACT as int;
    if i > 0 {
        let k = pow2(i) * den;
        assert(f * pow2(i) * den == f * k) by (nonlinear_arith)
            requires
                k == pow2(i) * den,
        ;
        assert(p * d <= num) by (nonlinear_arith)
            requires
                p == 2 * f,
                2 * d <= k,
                f * k < num,
                f > 0,
        ;
    } else {
        assert(2 * (p * d) <= p * den) by (nonlinear_arith)
            requires
                2 * d <= 1 * den,
                p > 0,
        ;
        if den == 1 {
            lemma_grid(num, 0);
            assert(num * 1 == num) by (nonlinear_arith);
            lemma_exact(r, Double { bits: grid(num, 0) as u64 }, num, 1);
            assert(quanta(r) == num);
            assert(p * 0 == 0) by (nonlinear_arith);
        }
    }
    assert(p * den >= 0) by (nonlinear_arith)
        requires
            p > 0,
            den > 0,
    ;
    assert(den == 1 ==> quanta(r) * den == quanta(r)) by (nonlinear_arith);
}

/// A finite number of at most so many quanta either way.
pub open spec fn is_around(x: Double, most: nat) -> bool {
    x.finite() && -most <= quanta(x) <= most
}

/// What lies within a number either way rounds to within it.
pub proof fn lemma_around(r: Double, num: int, den: int, top: Double)
    requires
        rounded(r, num, den),
        den > 0,
        top.finite(),
        -(quanta(top) * den) <= num <= quanta(top) * den,
    ensures
        r.finite(),
        -quanta(top) <= quanta(r) <= quanta(top),
{
    let low = negated(top);
    let q = quanta(top);
    assert(quanta(low) == -q);
    assert((-q) * den == -(q * den)) by (nonlinear_arith);
    lemma_at_most(r, top, num, den);
    lemma_at_least(r, low, num, den);
    lemma_quanta_order(r, top);
    lemma_quanta_order(low, r);
}

/// A multiple of a power of two is a number, as long as the factor fits the
/// precision and the product the range.
pub proof fn lemma_multiple(n: int, k: nat) -> (top: Double)
    requires
        0 <= n <= 2 * FRACTION,
        n * pow2(k) <= pow2(2097),
    ensures
        top.finite(),
        quanta(top) == n * pow2(k),
{
    if k <= 2044 {
        lemma_grid(n, k);
        Double { bits: grid(n, k) as u64 }
    } else {
        let (b, c) = (pow2((k - 2044) as nat) as int, pow2(2044) as int);
        lemma2_to64();
        lemma_pow2_adds(32, 21);
        lemma_pow2_adds(53, 2044);
        lemma_pow2_adds((k - 2044) as nat, 2044);
        lemma_pow2_pos(2044);
        lemma_mul_is_associative(n, b, c);
        lemma_mul_nonnegative(n, b);
        assert(n * b <= pow2(53)) by (nonlinear_arith)
            requires
                (n * b) * c <= pow2(53) * c,
                c > 0,
        ;
        lemma_grid(n * b, 2044);
        Double { bits: grid(n * b, 2044) as u64 }
    }
}

/// Factors of a relative error multiply up to their sum and one more.
pub proof fn lemma_chain(p: int, x: int, y: int, z: int, m: int, n: int)
    requires
        p > 0,
        m >= 0,
        n >= 0,
        z >= 0,
        m * n <= p,
        p * x <= (p + m) * y,
        p * y <= (p + n) * z,
    ensures
        p * x <= (p + m + n + 1) * z,
{
    let w = (p + m) * ((p + n) * z);
    assert(p * (p * x) <= p * ((p + m) * y)) by (nonlinear_arith)
        requires
            p * x <= (p + m) * y,
            p > 0,
    ;
    assert(p * ((p + m) * y) == (p + m) * (p * y)) by (nonlinear_arith);
    assert((p + m) * (p * y) <= w) by (nonlinear_arith)
        requires
            p * y <= (p + n) * z,
            p + m > 0,
            w == (p + m) * ((p + n) * z),
    ;
    assert(w == (p * p + (m + n) * p + m * n) * z) by (nonlinear_arith)
        requires
            w == (p + m) * ((p + n) * z),
    ;
    assert(w <= (p * p + (m + n) * p + p) * z) by (nonlinear_arith)
        requires
            w == (p * p + (m + n) * p + m * n) * z,
            m * n <= p,
            z >= 0,
    ;
    assert((p * p + (m + n) * p + p) * z == p * ((p + m + n + 1) * z)) by (nonlinear_arith);
    assert(p * x <= (p + m + n + 1) * z) by (nonlinear_arith)
        requires
            p * (p * x) <= p * ((p + m + n + 1) * z),
            p > 0,
    ;
}

/// The same from below.
pub proof fn lemma_chain_down(p: int, x: int, y: int, z: int, m: int, n: int)
    requires
        p > 0,
        0 <= m <= p,
        0 <= n,
        z >= 0,
        (p - m) * y <= p * x,
        (p - n) * z <= p * y,
    ensures
        (p - m - n) * z <= p * x,
{
    let w = (p - m) * ((p - n) * z);
    assert(p * ((p - m) * y) <= p * (p * x)) by (nonlinear_arith)
        requires
            (p - m) * y <= p * x,
            p > 0,
    ;
    assert(p * ((p - m) * y) == (p - m) * (p * y)) by (nonlinear_arith);
    assert(w <= (p - m) * (p * y)) by (nonlinear_arith)
        requires
            (p - n) * z <= p * y,
            p - m >= 0,
            w == (p - m) * ((p - n) * z),
    ;
    assert(w == (p * p - (m + n) * p) * z + (m * n) * z) by (nonlinear_arith)
        requires
            w == (p - m) * ((p - n) * z),
    ;
    assert((m * n) * z >= 0) by (nonlinear_arith)
        requires
            m >= 0,
            n >= 0,
            z >= 0,
    ;
    assert((p * p - (m + n) * p) * z == p * ((p - m - n) * z)) by (nonlinear_arith);
    assert((p - m - n) * z <= p * x) by (nonlinear_arith)
        requires
            p * ((p - m - n) * z) <= p * (p * x),
            p > 0,
    ;
}

/// Scaling scales the distance.
pub proof fn lemma_scaled(x: int, y: int, u: int)
    requires
        u > 0,
    ensures
        distance(x * u, y * u) == distance(x, y) * u,
{
    assert((y - x) * u == y * u - x * u && (x - y) * u == x * u - y * u) by (nonlinear_arith);
    if x <= y {
        assert(x * u <= y * u) by (nonlinear_arith)
            requires
                x <= y,
                u > 0,
        ;
    } else {
        assert(y * u < x * u) by (nonlinear_arith)
            requires
                y < x,
                u > 0,
        ;
    }
}

/// Bounds of the same factors add up.
pub proof fn lemma_added(p: int, c: int, x: int, y: int, v: int, w: int)
    requires
        p * x <= c * y,
        p * v <= c * w,
    ensures
        p * (x + v) <= c * (y + w),
{
    lemma_mul_is_distributive_add(p, x, v);
    lemma_mul_is_distributive_add(c, y, w);
}

/// What is off by at most a part of it.
pub proof fn lemma_off(p: int, x: int, y: int, off: int)
    requires
        p > 0,
        p * off <= y,
    ensures
        x <= y + off ==> p * x <= (p + 1) * y,
        y <= x + off ==> (p - 1) * y <= p * x,
{
    lemma_mul_is_distributive_add_other_way(y, p, 1);
    lemma_mul_is_distributive_add_other_way(y, p, -1);
    assert((p + -1) * y == p * y + -1 * y);
    if x <= y + off {
        lemma_mul_inequality(x, y + off, p);
        lemma_mul_is_commutative(x, p);
        lemma_mul_is_commutative(y + off, p);
        lemma_mul_is_distributive_add(p, y, off);
    }
    if y <= x + off {
        lemma_mul_inequality(y, x + off, p);
        lemma_mul_is_commutative(y, p);
        lemma_mul_is_commutative(x + off, p);
        lemma_mul_is_distributive_add(p, x, off);
    }
}

/// What is off by at most a part of it or half of `least`.
pub proof fn lemma_off_or_least(p: int, x: int, y: int, least: int)
    requires
        p > 0,
        y >= 0,
        least >= 0,
        2 * (p * distance(x, y)) <= 2 * y + p * least,
    ensures
        p * x <= (p + 1) * (y + least),
        (p - 1) * y <= p * (x + least),
{
    let off = distance(x, y);
    lemma_mul_inequality(x, y + off, p);
    lemma_mul_inequality(y, x + off, p);
    lemma_mul_is_commutative(x, p);
    lemma_mul_is_commutative(y, p);
    lemma_mul_is_commutative(x + off, p);
    lemma_mul_is_commutative(y + off, p);
    lemma_mul_is_distributive_add(p, x, off);
    lemma_mul_is_distributive_add(p, y, off);
    lemma_mul_is_distributive_add(p, x, least);
    lemma_mul_is_distributive_add(p, y, least);
    lemma_mul_is_distributive_add_other_way(y + least, p, 1);
    lemma_mul_is_distributive_add_other_way(y, p, -1);
    assert((p + -1) * y == p * y + -1 * y);
    lemma_mul_nonnegative(p, least);
}

/// A difference that is off by a unit of the precision has a square that is off
/// by two, or by three from above.
pub proof fn lemma_difference_squared(p: int, e: int, g: int)
    requires
        p >= 4,
        p * distance(e, g) <= distance(g, 0),
    ensures
        p * (e * e) <= (p + 3) * (g * g),
        (p - 2) * (g * g) <= p * (e * e),
{
    let n = distance(g, 0);
    let m = distance(e, 0);
    assert(g * g == n * n && e * e == m * m) by (nonlinear_arith)
        requires
            n == g || n == -g,
            m == e || m == -e,
    ;
    let off = distance(e, g);
    assert(m <= n + off && n <= m + off);
    assert(p * m <= (p + 1) * n) by (nonlinear_arith)
        requires
            m <= n + off,
            p * off <= n,
            p > 0,
    ;
    assert((p - 1) * n <= p * m) by (nonlinear_arith)
        requires
            n <= m + off,
            p * off <= n,
            p > 0,
    ;
    let (s, t) = ((p + 1) * n, (p - 1) * n);
    assert((p * m) * (p * m) <= s * s) by (nonlinear_arith)
        requires
            0 <= p * m <= s,
    ;
    assert(s * s == (p * p + 2 * p + 1) * (n * n)) by (nonlinear_arith)
        requires
            s == (p + 1) * n,
    ;
    assert((p * p + 2 * p + 1) * (n * n) <= p * ((p + 3) * (n * n))) by (nonlinear_arith)
        requires
            p >= 4,
    {
        assert(n * n >= 0);
        assert(p * ((p + 3) * (n * n)) == (p * p + 3 * p) * (n * n));
    }
    assert((p * m) * (p * m) == p * (p * (m * m))) by (nonlinear_arith);
    assert(p * (m * m) <= (p + 3) * (n * n)) by (nonlinear_arith)
        requires
            p * (p * (m * m)) <= p * ((p + 3) * (n * n)),
            p > 0,
    ;
    assert(t * t <= (p * m) * (p * m)) by (nonlinear_arith)
        requires
            0 <= t <= p * m,
    ;
    assert(t * t == (p * p - 2 * p + 1) * (n * n)) by (nonlinear_arith)
        requires
            t == (p - 1) * n,
    ;
    assert(p * ((p - 2) * (n * n)) <= (p * p - 2 * p + 1) * (n * n)) by (nonlinear_arith)
        requires
            p >= 4,
    {
        assert(n * n >= 0);
        assert(p * ((p - 2) * (n * n)) == (p * p - 2 * p) * (n * n));
    }
    assert((p - 2) * (n * n) <= p * (m * m)) by (nonlinear_arith)
        requires
            p * ((p - 2) * (n * n)) <= p * (p * (m * m)),
            p > 0,
    ;
}

/// A relative error of two units makes five of a square.
pub proof fn lemma_squared(p: int, h: int, l: int)
    requires
        p >= 4,
        0 <= l <= h,
        p * h <= (p + 2) * l,
    ensures
        p * (h * h) <= (p + 5) * (l * l),
{
    assert(p * (h * h) <= (p + 2) * (l * h)) by (nonlinear_arith)
        requires
            p * h <= (p + 2) * l,
            h >= 0,
    ;
    assert(p * (l * h) <= (p + 2) * (l * l)) by (nonlinear_arith)
        requires
            p * h <= (p + 2) * l,
            l >= 0,
    ;
    assert(l * l >= 0) by (nonlinear_arith);
    lemma_chain(p, h * h, l * h, l * l, 2, 2);
}

/// From below it makes four.
pub proof fn lemma_squared_down(p: int, l: int, h: int)
    requires
        p >= 4,
        0 <= l <= h,
        (p - 2) * h <= p * l,
    ensures
        (p - 4) * (h * h) <= p * (l * l),
{
    assert((p - 2) * (l * h) <= p * (l * l)) by (nonlinear_arith)
        requires
            (p - 2) * h <= p * l,
            l >= 0,
    ;
    assert((p - 2) * (h * h) <= p * (l * h)) by (nonlinear_arith)
        requires
            (p - 2) * h <= p * l,
            h >= 0,
    ;
    assert(h * h >= 0) by (nonlinear_arith);
    lemma_chain_down(p, l * l, l * h, h * h, 2, 2);
}

/// A fraction rounds as it does with both of its sides multiplied.
pub proof fn lemma_rounded_scaled(r: Double, num: int, den: int, k: int)
    requires
        rounded(r, num, den),
        den > 0,
        k > 0,
    ensures
        rounded(r, num * k, den * k),
{
    let t = overflow();
    assert(t * (den * k) == (t * den) * k && -t * (den * k) == (-t * den) * k) by (nonlinear_arith);
    if num >= t * den {
        assert(num * k >= (t * den) * k) by (nonlinear_arith)
            requires
                num >= t * den,
                k > 0,
        ;
    } else if num <= -t * den {
        lemma_below_overflow(zero());
        lemma_constants();
        assert(num * k <= (-t * den) * k) by (nonlinear_arith)
            requires
                num <= -t * den,
                k > 0,
        ;
        assert((-t * den) * k < (t * den) * k) by (nonlinear_arith)
            requires
                t > 0,
                den > 0,
                k > 0,
        ;
    } else {
        assert((-t * den) * k < num * k < (t * den) * k) by (nonlinear_arith)
            requires
                -t * den < num < t * den,
                k > 0,
        ;
        assert forall|d: Double| d.finite() implies distance(
            quanta(r) * (den * k),
            num * k,
        ) <= distance(#[trigger] quanta(d) * (den * k), num * k) && (quanta(d) != quanta(r)
            && distance(quanta(r) * (den * k), num * k) == distance(
            quanta(d) * (den * k),
            num * k,
        ) ==> r.bits % 2 == 0) by {
            let (p, q) = (quanta(r), quanta(d));
            assert(p * (den * k) == (p * den) * k && q * (den * k) == (q * den) * k)
                by (nonlinear_arith);
            lemma_scaled(p * den, num, k);
            lemma_scaled(q * den, num, k);
            let (v, w) = (distance(p * den, num), distance(q * den, num));
            assert(distance(quanta(r) * den, num) <= distance(quanta(d) * den, num));
            assert(v * k <= w * k) by (nonlinear_arith)
                requires
                    v <= w,
                    k > 0,
            ;
            if v != w {
                assert(v * k < w * k) by (nonlinear_arith)
                    requires
                        v < w,
                        k > 0,
                ;
            }
        }
    }
}

/// A fraction rounds as it does reduced.
pub proof fn lemma_rounded_reduced(r: Double, num: int, den: int, k: int)
    requires
        rounded(r, num * k, den * k),
        den > 0,
        k > 0,
    ensures
        rounded(r, num, den),
{
    let t = overflow();
    assert(t * (den * k) == (t * den) * k && -t * (den * k) == (-t * den) * k) by (nonlinear_arith);
    if num >= t * den {
        assert(num * k >= (t * den) * k) by (nonlinear_arith)
            requires
                num >= t * den,
                k > 0,
        ;
    } else if num <= -t * den {
        lemma_below_overflow(zero());
        lemma_constants();
        assert(num * k <= (-t * den) * k) by (nonlinear_arith)
            requires
                num <= -t * den,
                k > 0,
        ;
        assert((-t * den) * k < (t * den) * k) by (nonlinear_arith)
            requires
                t > 0,
                den > 0,
                k > 0,
        ;
    } else {
        assert((-t * den) * k < num * k < (t * den) * k) by (nonlinear_arith)
            requires
                -t * den < num < t * den,
                k > 0,
        ;
        assert forall|d: Double| d.finite() implies distance(quanta(r) * den, num) <= distance(
            #[trigger] quanta(d) * den,
            num,
        ) && (quanta(d) != quanta(r) && distance(quanta(r) * den, num) == distance(
            quanta(d) * den,
            num,
        ) ==> r.bits % 2 == 0) by {
            let (p, q) = (quanta(r), quanta(d));
            assert(p * (den * k) == (p * den) * k && q * (den * k) == (q * den) * k)
                by (nonlinear_arith);
            lemma_scaled(p * den, num, k);
            lemma_scaled(q * den, num, k);
            let (v, w) = (distance(p * den, num), distance(q * den, num));
            assert(distance(quanta(r) * (den * k), num * k) <= distance(
                quanta(d) * (den * k),
                num * k,
            ));
            assert(v <= w) by (nonlinear_arith)
                requires
                    v * k <= w * k,
                    k > 0,
            ;
        }
    }
}

/// A bound keeps under a factor that is not negative.
pub proof fn lemma_times(p: int, x: int, c: int, y: int, n: int)
    requires
        p * x <= c * y,
        n >= 0,
    ensures
        p * (x * n) <= c * (y * n),
{
    lemma_mul_inequality(p * x, c * y, n);
    lemma_mul_is_associative(p, x, n);
    lemma_mul_is_associative(c, y, n);
}

} // verus!
