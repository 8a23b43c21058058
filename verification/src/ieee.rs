//! Exact values of doubles, and what it means to round to the nearest one.
//!
//! Every finite double is a whole number of quanta, the quantum being the
//! smallest positive double. Counted in quanta the exact sum of two doubles is
//! an integer, and their exact product and quotient are fractions of integers,
//! so that correct rounding, ties to even, can be stated and reasoned about
//! with integers alone.

use crate::double::{
    eval, Double, Op, FRACTION, FRAC_1_SQRT_2, HALF, INFINITY, ONE, SIGN, TWO, ZERO,
};
use vstd::arithmetic::power2::{
    lemma2_to64, lemma_pow2_adds, lemma_pow2_pos, lemma_pow2_strictly_increases, lemma_pow2_unfold,
    pow2,
};
use vstd::prelude::*;

verus! {

/// How many quanta a magnitude stands for.
pub open spec fn quanta_at(m: int) -> int {
    let exponent = m / FRACTION as int;
    let fraction = m % FRACTION as int;
    if exponent == 0 {
        fraction
    } else {
        (FRACTION + fraction) * pow2((exponent - 1) as nat)
    }
}

/// A finite number in quanta.
pub open spec fn quanta(x: Double) -> int {
    if x.bits < SIGN {
        quanta_at(x.magnitude())
    } else {
        -quanta_at(x.magnitude())
    }
}

/// The number 1 in quanta.
pub open spec fn unity() -> int {
    pow2(1074) as int
}

/// From here on a number rounds to infinity: half a step beyond the largest
/// finite one, in quanta.
pub open spec fn overflow() -> int {
    (4 * FRACTION - 1) * pow2(2044)
}

pub open spec fn distance(x: int, y: int) -> int {
    if x <= y {
        y - x
    } else {
        x - y
    }
}

/// Whether no finite number is nearer to `num / den` quanta than `r`, and `r`
/// is even where another one is as near.
pub open spec fn is_nearest(r: Double, num: int, den: int) -> bool {
    &&& r.finite()
    &&& forall|d: Double|
        d.finite() ==> distance(quanta(r) * den, num) <= distance(#[trigger] quanta(d) * den, num)
    &&& forall|d: Double|
        d.finite() && quanta(d) != quanta(r) && distance(quanta(r) * den, num) == distance(
            #[trigger] quanta(d) * den,
            num,
        ) ==> r.bits % 2 == 0
}

/// Whether `r` is what `num / den` quanta round to. The sign of a zero is left
/// open.
pub open spec fn rounded(r: Double, num: int, den: int) -> bool {
    if num >= overflow() * den {
        r.bits == INFINITY
    } else if num <= -overflow() * den {
        r.bits == SIGN + INFINITY
    } else {
        is_nearest(r, num, den)
    }
}

/// Consecutive magnitudes are a power of two apart.
proof fn lemma_step(m: int)
    requires
        0 <= m < INFINITY,
    ensures
        quanta_at(m) < quanta_at(m + 1),
{
    let f = FRACTION as int;
    let e = m / f;
    vstd::arithmetic::div_mod::lemma_fundamental_div_mod(m, f);
    lemma2_to64();
    if m % f + 1 < f {
        assert((m + 1) / f == e && (m + 1) % f == m % f + 1) by {
            vstd::arithmetic::div_mod::lemma_fundamental_div_mod_converse(m + 1, f, e, m % f + 1);
        }
        if e > 0 {
            let p = pow2((e - 1) as nat) as int;
            lemma_pow2_pos((e - 1) as nat);
            assert((f + m % f) * p < (f + m % f + 1) * p) by (nonlinear_arith)
                requires
                    p > 0,
            ;
        }
    } else {
        assert((m + 1) / f == e + 1 && (m + 1) % f == 0) by {
            assert(m + 1 == f * (e + 1)) by (nonlinear_arith)
                requires
                    m == f * e + m % f,
                    m % f == f - 1,
            ;
            vstd::arithmetic::div_mod::lemma_fundamental_div_mod_converse(m + 1, f, e + 1, 0);
        }
        if e > 0 {
            let p = pow2((e - 1) as nat) as int;
            lemma_pow2_pos((e - 1) as nat);
            lemma_pow2_unfold(e as nat);
            assert((f + (f - 1)) * p < f * (2 * p)) by (nonlinear_arith)
                requires
                    p > 0,
            ;
        }
    }
}

/// Larger magnitudes stand for more quanta.
proof fn lemma_quanta_grow(m: int, n: int)
    requires
        0 <= m < n <= INFINITY,
    ensures
        quanta_at(m) < quanta_at(n),
    decreases n - m,
{
    lemma_step(n - 1);
    if m < n - 1 {
        lemma_quanta_grow(m, n - 1);
    }
}

proof fn lemma_quanta_zero()
    ensures
        quanta_at(0) == 0,
{
}

/// Numbers and their quanta are in the same order.
pub proof fn lemma_quanta_order(x: Double, y: Double)
    requires
        x.finite(),
        y.finite(),
    ensures
        x.at_most(y) <==> quanta(x) <= quanta(y),
        x.equal(y) <==> quanta(x) == quanta(y),
{
    let (m, n) = (x.magnitude(), y.magnitude());
    lemma_quanta_zero();
    if m > 0 {
        lemma_quanta_grow(0, m);
    }
    if n > 0 {
        lemma_quanta_grow(0, n);
    }
    if m < n {
        lemma_quanta_grow(m, n);
    }
    if n < m {
        lemma_quanta_grow(n, m);
    }
}

/// Finite numbers stay clear of the overflow threshold, and the coarsest grid
/// covers them.
pub proof fn lemma_below_overflow(x: Double)
    requires
        x.finite(),
    ensures
        -overflow() < quanta(x) < overflow(),
        overflow() <= 2 * FRACTION * pow2(2045),
{
    let top = INFINITY - 1;
    let f = FRACTION as int;
    assert(top / f == 2046 && top % f == f - 1);
    lemma_pow2_unfold(2045);
    lemma_pow2_pos(2044);
    let p = pow2(2044) as int;
    assert(quanta_at(top) == (f + (f - 1)) * pow2(2045));
    assert((f + (f - 1)) * (2 * p) < (4 * f - 1) * p) by (nonlinear_arith)
        requires
            p > 0,
    ;
    lemma_quanta_zero();
    let m = x.magnitude();
    if 0 < m {
        lemma_quanta_grow(0, m);
    }
    if m < top {
        lemma_quanta_grow(m, top);
    }
    assert(overflow() > 0) by (nonlinear_arith)
        requires
            overflow() == (4 * f - 1) * p,
            p > 0,
            f == 0x10_0000_0000_0000,
    ;
    assert((4 * f - 1) * p <= 2 * f * (2 * p)) by (nonlinear_arith)
        requires
            p > 0,
    ;
}

/// Rounding does not cross a number: what is at least `d` rounds to at least
/// `d`.
pub proof fn lemma_at_least(r: Double, d: Double, num: int, den: int)
    requires
        rounded(r, num, den),
        den > 0,
        d.finite(),
        quanta(d) * den <= num,
    ensures
        d.at_most(r),
{
    lemma_below_overflow(d);
    let (q, t) = (quanta(d), overflow());
    if num >= t * den {
    } else if num <= -t * den {
        assert(q * den > -t * den) by (nonlinear_arith)
            requires
                q > -t,
                den > 0,
        ;
    } else {
        lemma_quanta_order(d, r);
        if quanta(r) < q {
            assert(quanta(r) * den < q * den) by (nonlinear_arith)
                requires
                    quanta(r) < q,
                    den > 0,
            ;
        }
    }
}

/// Rounding does not cross a number: what is at most `d` rounds to at most
/// `d`.
pub proof fn lemma_at_most(r: Double, d: Double, num: int, den: int)
    requires
        rounded(r, num, den),
        den > 0,
        d.finite(),
        num <= quanta(d) * den,
    ensures
        r.at_most(d),
{
    lemma_below_overflow(d);
    let (q, t) = (quanta(d), overflow());
    if num >= t * den {
        assert(q * den < t * den) by (nonlinear_arith)
            requires
                q < t,
                den > 0,
        ;
    } else if num <= -t * den {
    } else {
        lemma_quanta_order(r, d);
        if q < quanta(r) {
            assert(q * den < quanta(r) * den) by (nonlinear_arith)
                requires
                    q < quanta(r),
                    den > 0,
            ;
        }
    }
}

/// A number rounds to itself.
pub proof fn lemma_exact(r: Double, d: Double, num: int, den: int)
    requires
        rounded(r, num, den),
        den > 0,
        d.finite(),
        num == quanta(d) * den,
    ensures
        r.equal(d),
        r.finite(),
        quanta(r) == quanta(d),
{
    lemma_at_least(r, d, num, den);
    lemma_at_most(r, d, num, den);
    lemma_quanta_order(r, d);
}

/// The number one place above another.
pub open spec fn above(x: Double) -> Double {
    if x.place() >= 0 {
        Double { bits: (x.place() + 1) as u64 }
    } else {
        Double { bits: (x.bits - 1) as u64 }
    }
}

/// Rounding keeps the order.
pub proof fn lemma_monotone(r: Double, num: int, s: Double, more: int, den: int)
    requires
        rounded(r, num, den),
        rounded(s, more, den),
        den > 0,
        num <= more,
    ensures
        r.at_most(s),
{
    let t = overflow();
    lemma_below_overflow(Double { bits: 0 });
    lemma_quanta_zero();
    assert(t * den > 0) by (nonlinear_arith)
        requires
            t > 0,
            den > 0,
    ;
    assert(-t * den == -(t * den)) by (nonlinear_arith);
    if more < t * den && num > -t * den {
        let (p, q) = (quanta(r), quanta(s));
        lemma_quanta_order(r, s);
        if q < p {
            // Both lie halfway between the two, which are then neighbours, and
            // neighbours are not both even.
            assert(q * den < p * den) by (nonlinear_arith)
                requires
                    q < p,
                    den > 0,
            ;
            assert(distance(p * den, num) <= distance(q * den, num));
            assert(distance(q * den, more) <= distance(p * den, more));
            assert(num == more);
            assert(distance(p * den, num) == distance(q * den, num));
            let d = above(s);
            assert(s.place() < r.place());
            assert(d.finite() && d.place() == s.place() + 1);
            lemma_quanta_order(s, d);
            lemma_quanta_order(d, r);
            if d.place() < r.place() {
                let m = quanta(d);
                assert(q * den < m * den < p * den) by (nonlinear_arith)
                    requires
                        q < m < p,
                        den > 0,
                ;
                assert(distance(p * den, num) <= distance(m * den, num));
            }
            assert(r.bits % 2 == 0 && s.bits % 2 == 0);
        }
    }
}

/// The magnitude of `k` times two to the `j` quanta.
pub open spec fn grid(k: int, j: nat) -> int
    decreases j,
{
    if k >= FRACTION {
        j * FRACTION + k
    } else if j == 0 {
        k
    } else {
        grid(2 * k, (j - 1) as nat)
    }
}

/// Whatever fits the precision and the range is a number: an integer of at most
/// 53 bits, scaled by a power of two.
pub proof fn lemma_grid(k: int, j: nat)
    requires
        0 <= k <= 2 * FRACTION,
        j <= 2045,
        j == 2045 ==> k < 2 * FRACTION,
    ensures
        0 <= grid(k, j) < INFINITY,
        quanta_at(grid(k, j)) == k * pow2(j),
        (Double { bits: grid(k, j) as u64 }).finite(),
        quanta(Double { bits: grid(k, j) as u64 }) == k * pow2(j),
    decreases j,
{
    let f = FRACTION as int;
    lemma2_to64();
    if k >= f {
        let m = j * f + k;
        if k < 2 * f {
            assert(m == f * (j + 1) + (k - f)) by (nonlinear_arith)
                requires
                    m == j * f + k,
            ;
            vstd::arithmetic::div_mod::lemma_fundamental_div_mod_converse(m, f, j as int + 1, k - f);
            assert(quanta_at(m) == (f + (k - f)) * pow2(j));
        } else {
            assert(m == f * (j + 2)) by (nonlinear_arith)
                requires
                    m == j * f + k,
                    k == 2 * f,
            ;
            vstd::arithmetic::div_mod::lemma_fundamental_div_mod_converse(m, f, j as int + 2, 0);
            lemma_pow2_unfold(j + 1);
            assert(quanta_at(m) == f * pow2(j + 1));
            assert(f * (2 * pow2(j)) == (2 * f) * pow2(j)) by (nonlinear_arith);
        }
        assert(m < INFINITY) by (nonlinear_arith)
            requires
                m == j * f + k,
                k <= 2 * f,
                j <= 2045,
                j == 2045 ==> k < 2 * f,
                f == 0x10_0000_0000_0000,
        ;
    } else if j == 0 {
        assert(k / f == 0 && k % f == k);
    } else {
        lemma_grid(2 * k, (j - 1) as nat);
        lemma_pow2_unfold(j);
        assert((2 * k) * pow2((j - 1) as nat) == k * (2 * pow2((j - 1) as nat)))
            by (nonlinear_arith);
    }
}

/// Rounding is off by at most half a step of any grid that fits the precision,
/// up to the one of the largest numbers.
pub proof fn lemma_error(r: Double, num: int, den: int, j: nat)
    requires
        rounded(r, num, den),
        den > 0,
        j <= 2045,
        0 <= num <= 2 * FRACTION * pow2(j) * den,
        j == 2045 ==> num < overflow() * den,
    ensures
        r.finite(),
        2 * distance(quanta(r) * den, num) <= pow2(j) * den,
{
    let f = FRACTION as int;
    let step = pow2(j) * den;
    lemma_pow2_pos(j);
    assert(step > 0) by (nonlinear_arith)
        requires
            step == pow2(j) * den,
            pow2(j) > 0,
            den > 0,
    ;
    assert(2 * f * pow2(j) * den == 2 * f * step) by (nonlinear_arith)
        requires
            step == pow2(j) * den,
    ;
    let t = overflow();
    lemma_below_overflow(Double { bits: 0 });
    lemma_quanta_zero();
    if j < 2045 {
        let top = Double { bits: grid(2 * f, j) as u64 };
        lemma_grid(2 * f, j);
        lemma_below_overflow(top);
        assert(2 * f * step < t * den) by (nonlinear_arith)
            requires
                2 * f * pow2(j) < t,
                step == pow2(j) * den,
                den > 0,
        ;
    }
    assert(-t * den < 0) by (nonlinear_arith)
        requires
            t > 0,
            den > 0,
    ;
    let k = num / step;
    vstd::arithmetic::div_mod::lemma_fundamental_div_mod(num, step);
    let rest = num % step;
    assert(0 <= rest < step);
    assert(num == step * k + rest);
    assert(0 <= k <= 2 * f) by (nonlinear_arith)
        requires
            0 <= num <= 2 * f * step,
            num == step * k + rest,
            0 <= rest < step,
    ;
    if j == 2045 {
        // Short of the overflow threshold, which is half a step beyond the
        // largest number.
        assert(2 * t == (4 * f - 1) * pow2(2045)) by {
            lemma_pow2_unfold(2045);
            assert(2 * ((4 * f - 1) * pow2(2044)) == (4 * f - 1) * (2 * pow2(2044)))
                by (nonlinear_arith);
        }
        assert(2 * num < (4 * f - 1) * step) by (nonlinear_arith)
            requires
                num < t * den,
                2 * t == (4 * f - 1) * pow2(2045),
                step == pow2(2045) * den,
                den > 0,
        ;
        assert(k <= 2 * f - 1) by (nonlinear_arith)
            requires
                2 * num < (4 * f - 1) * step,
                num == step * k + rest,
                0 <= rest < step,
                k <= 2 * f,
        ;
    }
    let d = Double { bits: grid(k, j) as u64 };
    lemma_grid(k, j);
    assert(quanta(d) * den == step * k) by (nonlinear_arith)
        requires
            quanta(d) == k * pow2(j),
            step == pow2(j) * den,
    ;
    assert(distance(quanta(r) * den, num) <= distance(quanta(d) * den, num));
    if j == 2045 && k == 2 * f - 1 {
        assert(2 * rest < step) by (nonlinear_arith)
            requires
                2 * num < (4 * f - 1) * step,
                num == step * k + rest,
                k == 2 * f - 1,
        ;
    } else if k < 2 * f {
        let e = Double { bits: grid(k + 1, j) as u64 };
        lemma_grid(k + 1, j);
        assert(quanta(e) * den == step * k + step) by (nonlinear_arith)
            requires
                quanta(e) == (k + 1) * pow2(j),
                step == pow2(j) * den,
        ;
        assert(distance(quanta(r) * den, num) <= distance(quanta(e) * den, num));
    } else {
        assert(rest == 0) by (nonlinear_arith)
            requires
                num <= 2 * f * step,
                num == step * k + rest,
                k >= 2 * f,
                rest >= 0,
                step > 0,
        ;
    }
}

pub open spec fn zero() -> Double {
    Double { bits: ZERO }
}

pub open spec fn one() -> Double {
    Double { bits: ONE }
}

/// Not NaN, and not below zero.
pub open spec fn nonnegative(x: Double) -> bool {
    zero().at_most(x)
}

/// Between 0 and 1, both included.
pub open spec fn in_unit(x: Double) -> bool {
    nonnegative(x) && x.at_most(one())
}

pub open spec fn is_infinite(x: Double) -> bool {
    x.magnitude() == INFINITY
}

/// Sums and differences are rounded, and a positive infinity stays one under
/// what is not negative.
pub open spec fn sums_round<A: Fn(Op) -> Double>(a: A) -> bool {
    &&& forall|x: Double, y: Double|
        x.finite() && y.finite() ==> rounded(
            #[trigger] eval(a, Op::Add(x, y)),
            quanta(x) + quanta(y),
            1,
        )
    &&& forall|x: Double, y: Double|
        nonnegative(x) && nonnegative(y) && (is_infinite(x) || is_infinite(y)) ==> (#[trigger] eval(
            a,
            Op::Add(x, y),
        )).bits == INFINITY
    &&& forall|x: Double, y: Double|
        x.finite() && y.finite() ==> rounded(
            #[trigger] eval(a, Op::Sub(x, y)),
            quanta(x) - quanta(y),
            1,
        )
}

/// Products are rounded, and an infinity times a positive number is that
/// infinity.
pub open spec fn products_round<A: Fn(Op) -> Double>(a: A) -> bool {
    &&& forall|x: Double, y: Double|
        x.finite() && y.finite() ==> rounded(
            #[trigger] eval(a, Op::Mul(x, y)),
            quanta(x) * quanta(y),
            unity(),
        )
    &&& forall|x: Double, y: Double|
        is_infinite(x) && y.positive() ==> (#[trigger] eval(a, Op::Mul(x, y))).bits == x.bits
}

/// Quotients by a positive number are rounded, and are 0 where it is infinite.
pub open spec fn quotients_round<A: Fn(Op) -> Double>(a: A) -> bool {
    &&& forall|x: Double, y: Double|
        x.finite() && y.finite() && y.positive() ==> rounded(
            #[trigger] eval(a, Op::Div(x, y)),
            quanta(x) * unity(),
            quanta(y),
        )
    &&& forall|x: Double, y: Double|
        x.finite() && is_infinite(y) && y.positive() ==> (#[trigger] eval(a, Op::Div(x, y))).equal(
            zero(),
        )
}

/// Whether no number that is not negative is nearer to the square root of
/// `square` quanta than `r`: the root lies on its side of the middle between
/// `r` and any other number.
pub open spec fn is_nearest_root(r: Double, square: int) -> bool {
    &&& r.finite()
    &&& nonnegative(r)
    &&& forall|d: Double|
        d.finite() && nonnegative(d) && #[trigger] quanta(d) < quanta(r) ==> (quanta(r) + quanta(
            d,
        )) * (quanta(r) + quanta(d)) <= 4 * square
    &&& forall|d: Double|
        d.finite() && nonnegative(d) && #[trigger] quanta(d) > quanta(r) ==> 4 * square <= (quanta(
            r,
        ) + quanta(d)) * (quanta(r) + quanta(d))
}

/// Square roots are rounded.
pub open spec fn roots_round<A: Fn(Op) -> Double>(a: A) -> bool {
    forall|x: Double|
        x.finite() && nonnegative(x) ==> is_nearest_root(
            #[trigger] eval(a, Op::Sqrt(x)),
            quanta(x) * unity(),
        )
}

/// Whether two numbers differ in nothing but their sign.
pub open spec fn opposite(x: Double, y: Double) -> bool {
    !x.nan() && !y.nan() && x.place() == -y.place()
}

/// The error function is odd, keeps the sign, and stays within -1 and 1.
pub open spec fn erf_is_odd<A: Fn(Op) -> Double>(a: A) -> bool {
    &&& forall|x: Double|
        !x.nan() ==> {
            &&& (#[trigger] eval(a, Op::Erf(x))).absolute().at_most(one())
            &&& nonnegative(x) ==> nonnegative(eval(a, Op::Erf(x)))
        }
    &&& forall|x: Double, y: Double|
        opposite(x, y) ==> opposite(#[trigger] eval(a, Op::Erf(x)), #[trigger] eval(a, Op::Erf(y)))
}

/// What the laws take an arithmetic unit to do: every result is the number
/// nearest to the exact one, ties to even; and of the error function, which
/// need not be that accurate, the sign and the range.
pub open spec fn rounds<A: Fn(Op) -> Double>(a: A) -> bool {
    &&& sums_round(a)
    &&& products_round(a)
    &&& quotients_round(a)
    &&& roots_round(a)
    &&& forall|n: u64| rounded(#[trigger] eval(a, Op::Of(n)), n * unity(), 1)
    &&& erf_is_odd(a)
}

/// The number with the other sign.
pub open spec fn negated(x: Double) -> Double {
    if x.bits < SIGN {
        Double { bits: (x.bits + SIGN) as u64 }
    } else {
        Double { bits: (x.bits - SIGN) as u64 }
    }
}

/// Rounding treats both signs alike.
pub proof fn lemma_negated(r: Double, num: int, den: int)
    requires
        rounded(r, num, den),
        den > 0,
    ensures
        rounded(negated(r), -num, den),
{
    let n = negated(r);
    let t = overflow();
    lemma_below_overflow(zero());
    lemma_quanta_zero();
    assert(-t * den == -(t * den)) by (nonlinear_arith);
    assert(t * den > 0) by (nonlinear_arith)
        requires
            t > 0,
            den > 0,
    ;
    if -t * den < num < t * den {
        assert forall|d: Double| d.finite() implies distance(quanta(n) * den, -num) <= distance(
            #[trigger] quanta(d) * den,
            -num,
        ) && (quanta(d) != quanta(n) && distance(quanta(n) * den, -num) == distance(
            quanta(d) * den,
            -num,
        ) ==> n.bits % 2 == 0) by {
            let e = negated(d);
            let (p, q) = (quanta(r), quanta(e));
            assert(quanta(n) == -p && quanta(d) == -q);
            assert((-p) * den == -(p * den) && (-q) * den == -(q * den)) by (nonlinear_arith);
            assert(distance(quanta(r) * den, num) <= distance(quanta(e) * den, num));
        }
    }
}

/// Opposite fractions round to opposite numbers.
pub proof fn lemma_opposite(r: Double, s: Double, num: int, den: int)
    requires
        rounded(r, num, den),
        rounded(s, -num, den),
        den > 0,
    ensures
        opposite(r, s),
{
    let n = negated(s);
    lemma_negated(s, -num, den);
    lemma_monotone(r, num, n, num, den);
    lemma_monotone(n, num, r, num, den);
}

/// The constants in quanta.
pub proof fn lemma_constants()
    ensures
        unity() > 0,
        unity() == 2 * FRACTION * pow2(1021),
        quanta(zero()) == 0,
        quanta(one()) == unity(),
        quanta(Double { bits: TWO }) == 2 * unity(),
        2 * quanta(Double { bits: HALF }) == unity(),
        quanta(Double { bits: (ONE + 1) as u64 }) == unity() + pow2(1022),
        pow2(1022) == 4 * pow2(1020),
        pow2(1021) == 2 * pow2(1020),
        pow2(1020) > 0,
{
    let f = FRACTION as int;
    lemma2_to64();
    lemma_pow2_adds(32, 20);
    assert(pow2(52) == f);
    lemma_pow2_pos(1020);
    lemma_pow2_unfold(1021);
    lemma_pow2_unfold(1022);
    lemma_pow2_unfold(1023);
    lemma_pow2_adds(52, 1022);
    assert(ONE as int / f == 1023 && ONE as int % f == 0);
    assert(TWO as int / f == 1024 && TWO as int % f == 0);
    assert(HALF as int / f == 1022 && HALF as int % f == 0);
    assert((ONE + 1) / f == 1023 && (ONE + 1) % f == 1);
    let p = pow2(1021) as int;
    assert(quanta(Double { bits: HALF }) == f * p);
    assert(quanta(one()) == f * (2 * p));
    assert(quanta(Double { bits: TWO }) == f * (4 * p));
    assert(quanta(Double { bits: (ONE + 1) as u64 }) == (f + 1) * (2 * p));
    assert(unity() == f * (2 * p));
    assert((f + 1) * (2 * p) == f * (2 * p) + 2 * p) by (nonlinear_arith);
    assert(f * (2 * p) == 2 * f * p && f * (4 * p) == 2 * (f * (2 * p)) && f * (2 * p) == 2 * (f
        * p)) by (nonlinear_arith);
}

/// What a rounded result is not.
proof fn lemma_not_nan(r: Double, num: int, den: int)
    requires
        rounded(r, num, den),
    ensures
        !r.nan(),
{
}

/// The integer part counts the whole units in a number, and there is nothing
/// else in a number that fills the precision.
pub proof fn lemma_whole(x: Double)
    requires
        nonnegative(x),
        x.finite(),
    ensures
        x.whole() * unity() <= quanta(x) < (x.whole() + 1) * unity(),
        x.whole() >= FRACTION ==> quanta(x) == x.whole() * unity(),
{
    let f = FRACTION as int;
    let m = x.magnitude();
    let e = m / f;
    let s = f + m % f;
    let u = unity();
    lemma_constants();
    lemma2_to64();
    if e == 0 {
        assert(quanta_at(m) == m % f);
        assert(f <= u) by (nonlinear_arith)
            requires
                u == 2 * f * pow2(1021),
                pow2(1021) >= 1,
                f > 0,
        ;
        assert(x.whole() == 0);
        assert(x.whole() * u == 0 && (x.whole() + 1) * u == u) by (nonlinear_arith)
            requires
                x.whole() == 0,
        ;
    } else if e >= 1075 {
        lemma_pow2_adds((e - 1075) as nat, 1074);
        let p = pow2((e - 1075) as nat) as int;
        assert(s * (p * u) == (s * p) * u) by (nonlinear_arith);
        assert((s * p + 1) * u == (s * p) * u + u) by (nonlinear_arith);
        assert(s * p >= 0) by (nonlinear_arith)
            requires
                s >= 0,
                p >= 0,
        ;
        assert(x.whole() == s * p);
    } else {
        let d = pow2((1075 - e) as nat) as int;
        let p = pow2((e - 1) as nat) as int;
        lemma_pow2_pos((1075 - e) as nat);
        lemma_pow2_pos((e - 1) as nat);
        lemma_pow2_adds((1075 - e) as nat, (e - 1) as nat);
        assert(d * p == u);
        vstd::arithmetic::div_mod::lemma_fundamental_div_mod(s, d);
        let w = s / d;
        assert(w * u <= s * p < (w + 1) * u) by (nonlinear_arith)
            requires
                s == d * w + s % d,
                0 <= s % d < d,
                d * p == u,
                p > 0,
        ;
        lemma_pow2_unfold((1075 - e) as nat);
        lemma_pow2_pos((1074 - e) as nat);
        assert(d >= 2);
        assert(w < f) by {
            assert(w <= s / 2) by {
                vstd::arithmetic::div_mod::lemma_div_is_ordered_by_denominator(s, 2, d);
            }
        }
        assert(w >= 0) by {
            vstd::arithmetic::div_mod::lemma_div_pos_is_pos(s, d);
        }
        assert(x.whole() == w);
    }
}

/// A sum of numbers that are not negative grows with them, and is no smaller
/// than either.
pub open spec fn add_orders<A: Fn(Op) -> Double>(a: A) -> bool {
    &&& forall|x: Double, y: Double, u: Double, v: Double|
        nonnegative(x) && nonnegative(y) && x.at_most(u) && y.at_most(v) ==> (#[trigger] eval(
            a,
            Op::Add(x, y),
        )).at_most(#[trigger] eval(a, Op::Add(u, v)))
    &&& forall|x: Double, y: Double|
        nonnegative(x) && nonnegative(y) ==> {
            &&& x.at_most(#[trigger] eval(a, Op::Add(x, y)))
            &&& y.at_most(eval(a, Op::Add(x, y)))
        }
    &&& forall|x: Double|
        x.absolute().at_most(one()) ==> {
            &&& nonnegative(#[trigger] eval(a, Op::Add(one(), x)))
            &&& eval(a, Op::Add(one(), x)).at_most(Double { bits: TWO })
        }
}

proof fn lemma_add_orders<A: Fn(Op) -> Double>(a: A)
    requires
        rounds(a),
    ensures
        add_orders(a),
{
    lemma_constants();
    assert forall|x: Double, y: Double, u: Double, v: Double|
        nonnegative(x) && nonnegative(y) && x.at_most(u) && y.at_most(v) implies (#[trigger] eval(
        a,
        Op::Add(x, y),
    )).at_most(#[trigger] eval(a, Op::Add(u, v))) by {
        let r = eval(a, Op::Add(x, y));
        let s = eval(a, Op::Add(u, v));
        if x.finite() && y.finite() {
            lemma_not_nan(r, quanta(x) + quanta(y), 1);
            if u.finite() && v.finite() {
                lemma_quanta_order(x, u);
                lemma_quanta_order(y, v);
                lemma_monotone(r, quanta(x) + quanta(y), s, quanta(u) + quanta(v), 1);
            }
        }
    }
    assert forall|x: Double, y: Double| nonnegative(x) && nonnegative(y) implies {
        &&& x.at_most(#[trigger] eval(a, Op::Add(x, y)))
        &&& y.at_most(eval(a, Op::Add(x, y)))
    } by {
        let r = eval(a, Op::Add(x, y));
        if x.finite() && y.finite() {
            lemma_quanta_order(zero(), x);
            lemma_quanta_order(zero(), y);
            lemma_at_least(r, x, quanta(x) + quanta(y), 1);
            lemma_at_least(r, y, quanta(x) + quanta(y), 1);
        }
    }
    assert forall|x: Double| x.absolute().at_most(one()) implies {
        &&& nonnegative(#[trigger] eval(a, Op::Add(one(), x)))
        &&& eval(a, Op::Add(one(), x)).at_most(Double { bits: TWO })
    } by {
        let r = eval(a, Op::Add(one(), x));
        lemma_quanta_order(x.absolute(), one());
        lemma_quanta_order(zero(), x.absolute());
        lemma_at_least(r, zero(), quanta(one()) + quanta(x), 1);
        lemma_at_most(r, Double { bits: TWO }, quanta(one()) + quanta(x), 1);
    }
}

/// A difference of two numbers that are not negative has no larger magnitude
/// than what bounds them both, and is not negative if the first one is the
/// larger.
pub open spec fn sub_orders<A: Fn(Op) -> Double>(a: A) -> bool {
    &&& forall|x: Double, y: Double|
        nonnegative(y) && y.at_most(x) && x.finite() ==> {
            &&& nonnegative(#[trigger] eval(a, Op::Sub(x, y)))
            &&& eval(a, Op::Sub(x, y)).at_most(x)
        }
    &&& forall|x: Double, y: Double, v: Double|
        #![trigger eval(a, Op::Sub(x, y)), v.finite()]
        nonnegative(x) && nonnegative(y) && x.at_most(v) && y.at_most(v) && v.finite() ==> eval(
            a,
            Op::Sub(x, y),
        ).absolute().at_most(v)
}

proof fn lemma_sub_orders<A: Fn(Op) -> Double>(a: A)
    requires
        rounds(a),
    ensures
        sub_orders(a),
{
    lemma_constants();
    assert forall|x: Double, y: Double| nonnegative(y) && y.at_most(x) && x.finite() implies {
        &&& nonnegative(#[trigger] eval(a, Op::Sub(x, y)))
        &&& eval(a, Op::Sub(x, y)).at_most(x)
    } by {
        let r = eval(a, Op::Sub(x, y));
        lemma_quanta_order(zero(), y);
        lemma_quanta_order(y, x);
        lemma_at_least(r, zero(), quanta(x) - quanta(y), 1);
        lemma_at_most(r, x, quanta(x) - quanta(y), 1);
    }
    assert forall|x: Double, y: Double, v: Double|
        #![trigger eval(a, Op::Sub(x, y)), v.finite()]
        nonnegative(x) && nonnegative(y) && x.at_most(v) && y.at_most(v) && v.finite() implies eval(
        a,
        Op::Sub(x, y),
    ).absolute().at_most(v) by {
        let r = eval(a, Op::Sub(x, y));
        let w = Double { bits: (SIGN + v.magnitude()) as u64 };
        lemma_quanta_order(zero(), x);
        lemma_quanta_order(zero(), y);
        lemma_quanta_order(x, v);
        lemma_quanta_order(y, v);
        assert(quanta(w) == -quanta(v));
        lemma_at_least(r, w, quanta(x) - quanta(y), 1);
        lemma_at_most(r, v, quanta(x) - quanta(y), 1);
    }
}

/// A product with a factor between 0 and 1 is no larger than the other factor;
/// half of at most 2 is at most 1; and scaling by a constant makes no NaN.
pub open spec fn mul_orders<A: Fn(Op) -> Double>(a: A) -> bool {
    &&& forall|x: Double, y: Double|
        nonnegative(x) && x.finite() && in_unit(y) ==> {
            &&& nonnegative(#[trigger] eval(a, Op::Mul(x, y)))
            &&& eval(a, Op::Mul(x, y)).at_most(x)
        }
    &&& forall|x: Double, y: Double|
        in_unit(x) && nonnegative(y) && y.finite() ==> {
            &&& nonnegative(#[trigger] eval(a, Op::Mul(x, y)))
            &&& eval(a, Op::Mul(x, y)).at_most(y)
        }
    &&& forall|y: Double|
        nonnegative(y) && y.at_most(Double { bits: TWO }) ==> in_unit(
            #[trigger] eval(a, Op::Mul(Double { bits: HALF }, y)),
        )
    &&& forall|x: Double|
        !x.nan() ==> !(#[trigger] eval(a, Op::Mul(x, Double { bits: FRAC_1_SQRT_2 }))).nan()
}

proof fn lemma_mul_orders<A: Fn(Op) -> Double>(a: A)
    requires
        rounds(a),
    ensures
        mul_orders(a),
{
    lemma_constants();
    let u = unity();
    assert forall|x: Double, y: Double| nonnegative(x) && x.finite() && in_unit(y) implies {
        &&& nonnegative(#[trigger] eval(a, Op::Mul(x, y)))
        &&& eval(a, Op::Mul(x, y)).at_most(x)
    } by {
        let r = eval(a, Op::Mul(x, y));
        lemma_quanta_order(zero(), x);
        lemma_quanta_order(zero(), y);
        lemma_quanta_order(y, one());
        let (p, q) = (quanta(x), quanta(y));
        assert(0 <= p * q <= p * u) by (nonlinear_arith)
            requires
                0 <= p,
                0 <= q <= u,
        ;
        lemma_at_least(r, zero(), p * q, u);
        lemma_at_most(r, x, p * q, u);
    }
    assert forall|x: Double, y: Double| in_unit(x) && nonnegative(y) && y.finite() implies {
        &&& nonnegative(#[trigger] eval(a, Op::Mul(x, y)))
        &&& eval(a, Op::Mul(x, y)).at_most(y)
    } by {
        let r = eval(a, Op::Mul(x, y));
        lemma_quanta_order(zero(), x);
        lemma_quanta_order(zero(), y);
        lemma_quanta_order(x, one());
        let (p, q) = (quanta(x), quanta(y));
        assert(0 <= p * q <= q * u) by (nonlinear_arith)
            requires
                0 <= q,
                0 <= p <= u,
        ;
        lemma_at_least(r, zero(), p * q, u);
        lemma_at_most(r, y, p * q, u);
    }
    assert forall|y: Double|
        nonnegative(y) && y.at_most(Double { bits: TWO }) implies in_unit(
        #[trigger] eval(a, Op::Mul(Double { bits: HALF }, y)),
    ) by {
        let r = eval(a, Op::Mul(Double { bits: HALF }, y));
        lemma_quanta_order(zero(), y);
        lemma_quanta_order(y, Double { bits: TWO });
        let (p, q) = (quanta(Double { bits: HALF }), quanta(y));
        assert(0 <= p * q <= u * u) by (nonlinear_arith)
            requires
                2 * p == u,
                0 <= q <= 2 * u,
                u > 0,
        ;
        lemma_at_least(r, zero(), p * q, u);
        lemma_at_most(r, one(), p * q, u);
    }
    assert forall|x: Double| !x.nan() implies !(#[trigger] eval(
        a,
        Op::Mul(x, Double { bits: FRAC_1_SQRT_2 }),
    )).nan() by {
        let c = Double { bits: FRAC_1_SQRT_2 };
        if x.finite() {
            lemma_not_nan(eval(a, Op::Mul(x, c)), quanta(x) * quanta(c), u);
        }
    }
}

/// A finite number over one that is no smaller lies between 0 and 1, a number
/// over itself is 1, and a finite number over a positive one is a number.
pub open spec fn div_orders<A: Fn(Op) -> Double>(a: A) -> bool {
    &&& forall|x: Double, y: Double|
        nonnegative(x) && x.finite() && x.at_most(y) && y.positive() ==> in_unit(
            #[trigger] eval(a, Op::Div(x, y)),
        )
    &&& forall|x: Double, y: Double|
        x.finite() && y.finite() && y.positive() ==> !(#[trigger] eval(a, Op::Div(x, y))).nan()
    &&& forall|x: Double|
        x.finite() && x.positive() ==> (#[trigger] eval(a, Op::Div(x, x))).equal(one())
}

proof fn lemma_div_orders<A: Fn(Op) -> Double>(a: A)
    requires
        rounds(a),
    ensures
        div_orders(a),
{
    lemma_constants();
    let u = unity();
    assert forall|x: Double, y: Double|
        nonnegative(x) && x.finite() && x.at_most(y) && y.positive() implies in_unit(
        #[trigger] eval(a, Op::Div(x, y)),
    ) by {
        let r = eval(a, Op::Div(x, y));
        if y.finite() {
            lemma_quanta_order(zero(), x);
            lemma_quanta_order(x, y);
            lemma_quanta_order(y, zero());
            let (p, q) = (quanta(x), quanta(y));
            assert(0 <= p * u <= u * q) by (nonlinear_arith)
                requires
                    0 <= p <= q,
                    u > 0,
            ;
            lemma_at_least(r, zero(), p * u, q);
            lemma_at_most(r, one(), p * u, q);
        }
    }
    assert forall|x: Double, y: Double| x.finite() && y.finite() && y.positive() implies !(
    #[trigger] eval(a, Op::Div(x, y))).nan() by {
        lemma_not_nan(eval(a, Op::Div(x, y)), quanta(x) * u, quanta(y));
    }
    assert forall|x: Double| x.finite() && x.positive() implies (#[trigger] eval(
        a,
        Op::Div(x, x),
    )).equal(one()) by {
        lemma_quanta_order(x, zero());
        let p = quanta(x);
        assert(p * u == u * p) by (nonlinear_arith);
        lemma_exact(eval(a, Op::Div(x, x)), one(), p * u, p);
    }
}

/// Two to the number of bits that a double's precision has: integers up to it
/// are exact.
pub const EXACT: u64 = 0x20_0000_0000_0000;

/// Integers become finite numbers in their order, exactly so while they fit
/// the precision.
pub open spec fn of_orders<A: Fn(Op) -> Double>(a: A) -> bool {
    &&& forall|n: u64|
        {
            &&& nonnegative(#[trigger] eval(a, Op::Of(n)))
            &&& eval(a, Op::Of(n)).finite()
            &&& n > 0 ==> eval(a, Op::Of(n)).positive()
            &&& n <= EXACT ==> quanta(eval(a, Op::Of(n))) == n * unity()
            &&& n <= EXACT ==> eval(a, Op::Of(n)).whole() == n
        }
    &&& forall|m: u64, n: u64|
        m <= n ==> (#[trigger] eval(a, Op::Of(m))).at_most(#[trigger] eval(a, Op::Of(n)))
}

proof fn lemma_of_orders<A: Fn(Op) -> Double>(a: A)
    requires
        rounds(a),
    ensures
        of_orders(a),
{
    lemma_constants();
    let u = unity();
    assert forall|n: u64|
        {
            &&& nonnegative(#[trigger] eval(a, Op::Of(n)))
            &&& eval(a, Op::Of(n)).finite()
            &&& n > 0 ==> eval(a, Op::Of(n)).positive()
            &&& n <= EXACT ==> quanta(eval(a, Op::Of(n))) == n * unity()
            &&& n <= EXACT ==> eval(a, Op::Of(n)).whole() == n
        } by {
        let r = eval(a, Op::Of(n));
        let num = n * u;
        assert(num >= 0) by (nonlinear_arith)
            requires
                num == n * u,
                u > 0,
        ;
        lemma_at_least(r, zero(), num, 1);
        let top = Double { bits: grid(FRACTION as int, 1086) as u64 };
        lemma_grid(FRACTION as int, 1086);
        lemma2_to64();
        lemma_pow2_adds(12, 1074);
        assert(num <= quanta(top)) by (nonlinear_arith)
            requires
                num == n * u,
                quanta(top) == FRACTION * (4096 * u),
                n <= 0xFFFF_FFFF_FFFF_FFFF,
                FRACTION == 0x10_0000_0000_0000,
                u > 0,
        ;
        lemma_at_most(r, top, num, 1);
        if n > 0 {
            assert(u <= num) by (nonlinear_arith)
                requires
                    num == n * u,
                    n >= 1,
                    u > 0,
            ;
            lemma_at_least(r, one(), num, 1);
        }
        if n <= EXACT {
            lemma_grid(n as int, 1074);
            lemma_exact(r, Double { bits: grid(n as int, 1074) as u64 }, num, 1);
            lemma_whole(r);
            let w = r.whole() as int;
            assert(w == n) by (nonlinear_arith)
                requires
                    w * u <= n * u,
                    n * u < (w + 1) * u,
                    u > 0,
            ;
        }
    }
    assert forall|m: u64, n: u64| m <= n implies (#[trigger] eval(a, Op::Of(m))).at_most(
        #[trigger] eval(a, Op::Of(n)),
    ) by {
        assert(m * u <= n * u) by (nonlinear_arith)
            requires
                m <= n,
                u > 0,
        ;
        lemma_monotone(eval(a, Op::Of(m)), m * u, eval(a, Op::Of(n)), n * u, 1);
    }
}

/// What a number is beyond its integer part lies between 0 and 1, and such a
/// part and what it lacks to 1 do not add up to more than 1.
pub open spec fn parts_order<A: Fn(Op) -> Double>(a: A) -> bool {
    &&& forall|x: Double|
        nonnegative(x) && x.whole() <= u64::MAX ==> in_unit(
            #[trigger] eval(a, Op::Sub(x, eval(a, Op::Of(x.whole() as u64)))),
        )
    &&& forall|f: Double|
        in_unit(f) ==> (#[trigger] eval(a, Op::Add(eval(a, Op::Sub(one(), f)), f))).at_most(one())
}

proof fn lemma_parts_order<A: Fn(Op) -> Double>(a: A)
    requires
        rounds(a),
        of_orders(a),
        sub_orders(a),
    ensures
        parts_order(a),
{
    lemma_constants();
    let u = unity();
    assert forall|x: Double| nonnegative(x) && x.whole() <= u64::MAX implies in_unit(
        #[trigger] eval(a, Op::Sub(x, eval(a, Op::Of(x.whole() as u64)))),
    ) by {
        let w = x.whole() as u64;
        let base = eval(a, Op::Of(w));
        let r = eval(a, Op::Sub(x, base));
        assert(x.finite()) by {
            if x.magnitude() == INFINITY {
                lemma2_to64();
                lemma_pow2_strictly_increases(12, 972);
                assert(INFINITY as int / FRACTION as int == 2047);
                assert(x.whole() == FRACTION * pow2(972));
                assert(FRACTION * pow2(972) > u64::MAX) by (nonlinear_arith)
                    requires
                        pow2(972) >= 4096,
                ;
            }
        }
        lemma_whole(x);
        let q = quanta(x);
        if w <= EXACT {
            assert(w * u <= q < w * u + u) by (nonlinear_arith)
                requires
                    w * u <= q < (w + 1) * u,
            ;
        } else {
            lemma_exact(base, x, w * u, 1);
        }
        lemma_at_least(r, zero(), q - quanta(base), 1);
        lemma_at_most(r, one(), q - quanta(base), 1);
    }
    assert forall|f: Double| in_unit(f) implies (#[trigger] eval(
        a,
        Op::Add(eval(a, Op::Sub(one(), f)), f),
    )).at_most(one()) by {
        let g = eval(a, Op::Sub(one(), f));
        let t = eval(a, Op::Add(g, f));
        lemma_quanta_order(zero(), f);
        lemma_quanta_order(f, one());
        lemma_error(g, u - quanta(f), 1, 1021);
        let s = quanta(g) + quanta(f);
        assert(s <= u + pow2(1020));
        if s <= u {
            lemma_at_most(t, one(), s, 1);
        } else {
            let next = Double { bits: (ONE + 1) as u64 };
            lemma_at_most(t, next, s, 1);
            lemma_quanta_order(t, one());
            if !t.at_most(one()) {
                lemma_quanta_order(next, t);
                assert(distance(quanta(t) * 1, s) <= distance(quanta(one()) * 1, s));
            }
        }
    }
}

/// How the results of a unit that rounds are ordered.
pub open spec fn orders<A: Fn(Op) -> Double>(a: A) -> bool {
    &&& add_orders(a)
    &&& sub_orders(a)
    &&& mul_orders(a)
    &&& div_orders(a)
    &&& of_orders(a)
    &&& parts_order(a)
}

pub proof fn lemma_orders<A: Fn(Op) -> Double>(a: A)
    requires
        rounds(a),
    ensures
        orders(a),
{
    lemma_add_orders(a);
    lemma_sub_orders(a);
    lemma_mul_orders(a);
    lemma_div_orders(a);
    lemma_of_orders(a);
    lemma_parts_order(a);
}

} // verus!
