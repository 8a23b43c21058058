//! Double-precision numbers held as their bit patterns, and the arithmetic
//! unit that computes on them.
//!
//! Everything that only needs to carry, compare, order or truncate a number
//! is decided here on the IEEE 754 binary64 bits. The operations that round
//! (sums, products, quotients, roots, the error function) come from an
//! arithmetic unit that the caller supplies as a function from an `Op` to its
//! rounded result; contracts speak of them through `eval`.

use vstd::arithmetic::power2::{lemma2_to64, lemma_pow2_adds, lemma_pow2_strictly_increases, pow2};
use vstd::bits::{lemma_u64_shl_is_mul, lemma_u64_shr_is_div};
use vstd::prelude::*;
use vstd::relations::{sorted_by, total_ordering};

verus! {

/// The sign bit.
pub const SIGN: u64 = 0x8000_0000_0000_0000;

/// The bits of positive infinity; a larger magnitude is not a number.
pub const INFINITY: u64 = 0x7FF0_0000_0000_0000;

/// The bits of the canonical quiet NaN.
pub const NAN: u64 = 0x7FF8_0000_0000_0000;

/// The bits of `0.0`.
pub const ZERO: u64 = 0;

/// The bits of `0.5`.
pub const HALF: u64 = 0x3FE0_0000_0000_0000;

/// The bits of `1.0`.
pub const ONE: u64 = 0x3FF0_0000_0000_0000;

/// The bits of `2.0`.
pub const TWO: u64 = 0x4000_0000_0000_0000;

/// The bits of one over the square root of two.
pub const FRAC_1_SQRT_2: u64 = 0x3FE6_A09E_667F_3BCD;

/// The bits of `1e6`.
pub const MILLION: u64 = 0x412E_8480_0000_0000;

/// The bits of `1e8`.
pub const HUNDRED_MILLION: u64 = 0x4197_D784_0000_0000;

/// The weight of the exponent field: two to the number of fraction bits.
pub const FRACTION: u64 = 0x10_0000_0000_0000;

/// A double-precision number, as its IEEE 754 binary64 bit pattern. `==`
/// compares the bits; `same` compares the numbers.
#[derive(Clone, Copy, Debug, PartialEq, Eq, Structural)]
pub struct Double {
    pub bits: u64,
}

/// One rounding operation, asked of an arithmetic unit.
#[derive(Clone, Copy, Debug, PartialEq, Eq, Structural)]
pub enum Op {
    Add(Double, Double),
    Sub(Double, Double),
    Mul(Double, Double),
    Div(Double, Double),
    Sqrt(Double),
    /// The error function.
    Erf(Double),
    /// The number nearest to an integer.
    Of(u64),
}

/// An arithmetic unit answers every operation, and always in the same way.
pub open spec fn is_unit<A: Fn(Op) -> Double>(a: A) -> bool {
    &&& forall|op: Op| call_requires(a, (op,))
    &&& forall|op: Op, r1: Double, r2: Double|
        call_ensures(a, (op,), r1) && call_ensures(a, (op,), r2) ==> r1 == r2
}

/// What the unit `a` answers to `op`.
pub open spec fn eval<A: Fn(Op) -> Double>(a: A, op: Op) -> Double {
    choose|r: Double| call_ensures(a, (op,), r)
}

impl Double {
    /// The bits without the sign.
    pub open spec fn magnitude(self) -> int {
        if self.bits < SIGN {
            self.bits as int
        } else {
            self.bits - SIGN
        }
    }

    pub open spec fn nan(self) -> bool {
        self.magnitude() > INFINITY
    }

    pub open spec fn finite(self) -> bool {
        self.magnitude() < INFINITY
    }

    /// Where the number stands on the number line, up to a strictly
    /// increasing map: the magnitude, negated under a set sign bit. Both
    /// zeros stand at 0. Meaningless for NaN.
    pub open spec fn place(self) -> int {
        if self.bits < SIGN {
            self.magnitude()
        } else {
            -self.magnitude()
        }
    }

    /// `self <= other` as numbers: false as soon as either is NaN.
    pub open spec fn at_most(self, other: Double) -> bool {
        !self.nan() && !other.nan() && self.place() <= other.place()
    }

    /// `self < other` as numbers: false as soon as either is NaN.
    pub open spec fn below(self, other: Double) -> bool {
        !self.nan() && !other.nan() && self.place() < other.place()
    }

    /// `self == other` as numbers: false as soon as either is NaN, true of
    /// the two zeros.
    pub open spec fn equal(self, other: Double) -> bool {
        !self.nan() && !other.nan() && self.place() == other.place()
    }

    /// Strictly above zero, and not NaN.
    pub open spec fn positive(self) -> bool {
        (Double { bits: ZERO }).below(self)
    }

    /// The place in the IEEE total order, in which negative zero comes before
    /// zero and the NaNs lie beyond the infinities of their sign.
    pub open spec fn total_place(self) -> int {
        if self.bits < SIGN {
            self.bits as int
        } else {
            SIGN - 1 - self.bits
        }
    }

    /// The number without its sign.
    pub open spec fn absolute(self) -> Double {
        Double { bits: self.magnitude() as u64 }
    }

    /// The integer part of a number that is not negative: the significand
    /// scaled by its exponent, rounded down. 0 for NaN and for a set sign.
    pub open spec fn whole(self) -> nat {
        let exponent = self.magnitude() / FRACTION as int;
        let significand = FRACTION + self.magnitude() % FRACTION as int;
        if self.nan() || self.bits >= SIGN || exponent == 0 {
            0
        } else if exponent >= 1075 {
            (significand * pow2((exponent - 1075) as nat)) as nat
        } else {
            (significand / pow2((1075 - exponent) as nat) as int) as nat
        }
    }

    /// The smaller of two numbers; the other one where one is NaN.
    pub open spec fn lesser(self, other: Double) -> Double {
        if self.nan() || other.at_most(self) {
            other
        } else {
            self
        }
    }

    /// The larger of two numbers; the other one where one is NaN.
    pub open spec fn greater(self, other: Double) -> Double {
        if self.nan() || self.at_most(other) {
            other
        } else {
            self
        }
    }

    pub fn is_nan(self) -> (r: bool)
        ensures
            r == self.nan(),
    {
        if self.bits < SIGN {
            self.bits > INFINITY
        } else {
            self.bits - SIGN > INFINITY
        }
    }

    pub fn is_finite(self) -> (r: bool)
        ensures
            r == self.finite(),
    {
        if self.bits < SIGN {
            self.bits < INFINITY
        } else {
            self.bits - SIGN < INFINITY
        }
    }

    /// `self <= other`.
    pub fn le(self, other: Double) -> (r: bool)
        ensures
            r == self.at_most(other),
    {
        if self.is_nan() || other.is_nan() {
            return false;
        }
        if self.bits < SIGN {
            if other.bits < SIGN {
                self.bits <= other.bits
            } else {
                self.bits == 0 && other.bits == SIGN
            }
        } else if other.bits < SIGN {
            true
        } else {
            other.bits <= self.bits
        }
    }

    /// `self < other`.
    pub fn lt(self, other: Double) -> (r: bool)
        ensures
            r == self.below(other),
    {
        self.le(other) && !other.le(self)
    }

    /// `self == other`.
    pub fn same(self, other: Double) -> (r: bool)
        ensures
            r == self.equal(other),
    {
        self.le(other) && other.le(self)
    }

    pub fn is_positive(self) -> (r: bool)
        ensures
            r == self.positive(),
    {
        (Double { bits: ZERO }).lt(self)
    }

    pub fn abs(self) -> (r: Double)
        ensures
            r == self.absolute(),
    {
        if self.bits < SIGN {
            self
        } else {
            Double { bits: self.bits - SIGN }
        }
    }

    pub fn min(self, other: Double) -> (r: Double)
        ensures
            r == self.lesser(other),
    {
        if self.is_nan() || other.le(self) {
            other
        } else {
            self
        }
    }

    pub fn max(self, other: Double) -> (r: Double)
        ensures
            r == self.greater(other),
    {
        if self.is_nan() || self.le(other) {
            other
        } else {
            self
        }
    }

    /// The integer part, as a conversion to an unsigned integer gives it: 0
    /// for NaN and below zero, the largest integer where it does not fit.
    pub fn truncate(self) -> (r: u64)
        ensures
            r == (if self.whole() <= u64::MAX { self.whole() } else { u64::MAX as nat }),
    {
        if self.bits >= SIGN || self.is_nan() {
            return 0;
        }
        let exponent: u64 = self.bits / FRACTION;
        if exponent == 0 {
            return 0;
        }
        let significand: u64 = FRACTION + self.bits % FRACTION;
        proof {
            lemma2_to64();
        }
        if exponent >= 1087 {
            proof {
                if exponent > 1087 {
                    lemma_pow2_strictly_increases(12, (exponent - 1075) as nat);
                }
                assert(pow2(12) == 4096);
                assert(significand * pow2((exponent - 1075) as nat) >= FRACTION * 4096)
                    by (nonlinear_arith)
                    requires
                        significand >= FRACTION,
                        pow2((exponent - 1075) as nat) >= 4096,
                ;
            }
            return u64::MAX;
        }
        if exponent >= 1075 {
            proof {
                let up = (exponent - 1075) as nat;
                if up < 11 {
                    lemma_pow2_strictly_increases(up, 11);
                }
                assert(significand * pow2(up) <= u64::MAX) by (nonlinear_arith)
                    requires
                        significand < 2 * FRACTION,
                        pow2(up) <= 2048,
                ;
                lemma_u64_shl_is_mul(significand, (exponent - 1075) as u64);
            }
            return significand << (exponent - 1075);
        }
        if exponent < 1022 {
            proof {
                let down = (1075 - exponent) as nat;
                lemma_pow2_strictly_increases(53, down);
                assert(pow2(53) == 0x20_0000_0000_0000) by {
                    lemma_pow2_adds(32, 21);
                }
                vstd::arithmetic::div_mod::lemma_basic_div(significand as int, pow2(down) as int);
            }
            return 0;
        }
        proof {
            lemma_u64_shr_is_div(significand, (1075 - exponent) as u64);
        }
        significand >> (1075 - exponent)
    }
}

/// The IEEE total order.
pub open spec fn total_le() -> spec_fn(Double, Double) -> bool {
    |x: Double, y: Double| x.total_place() <= y.total_place()
}

/// The same numbers in ascending total order.
pub open spec fn ascending(xs: Seq<Double>) -> Seq<Double> {
    xs.sort_by(total_le())
}

proof fn lemma_total_le()
    ensures
        total_ordering(total_le()),
{
}

/// The sum of the numbers, added up from the first to the last.
pub open spec fn sum<A: Fn(Op) -> Double>(a: A, xs: Seq<Double>) -> Double
    decreases xs.len(),
{
    if xs.len() == 0 {
        Double { bits: ZERO }
    } else {
        eval(a, Op::Add(sum(a, xs.drop_last()), xs.last()))
    }
}

/// The mean: the sum over the count.
pub open spec fn mean<A: Fn(Op) -> Double>(a: A, xs: Seq<Double>) -> Double {
    eval(a, Op::Div(sum(a, xs), eval(a, Op::Of(xs.len() as u64))))
}

/// The squared deviations from `m`.
pub open spec fn squared_deviations<A: Fn(Op) -> Double>(a: A, xs: Seq<Double>, m: Double) -> Seq<
    Double,
> {
    xs.map_values(
        |x: Double|
            {
                let d = eval(a, Op::Sub(x, m));
                eval(a, Op::Mul(d, d))
            },
    )
}

/// The sample standard deviation, with one less than the count below the
/// fraction.
pub open spec fn sample_std<A: Fn(Op) -> Double>(a: A, xs: Seq<Double>) -> Double {
    eval(
        a,
        Op::Sqrt(
            eval(
                a,
                Op::Div(
                    sum(a, squared_deviations(a, xs, mean(a, xs))),
                    eval(a, Op::Of((xs.len() - 1) as u64)),
                ),
            ),
        ),
    )
}

/// Adds the numbers up.
pub fn sum_of<A: Fn(Op) -> Double>(arith: &A, xs: &Vec<Double>) -> (r: Double)
    requires
        is_unit(*arith),
    ensures
        r == sum(*arith, xs@),
{
    let mut acc: Double = Double { bits: ZERO };
    let mut i: usize = 0;
    while i < xs.len()
        invariant
            i <= xs.len(),
            is_unit(*arith),
            acc == sum(*arith, xs@.take(i as int)),
        decreases xs.len() - i,
    {
        assert(xs@.take(i + 1).drop_last() =~= xs@.take(i as int));
        acc = arith(Op::Add(acc, xs[i]));
        i += 1;
    }
    assert(xs@.take(i as int) =~= xs@);
    acc
}

/// The mean of a list.
pub fn mean_of<A: Fn(Op) -> Double>(arith: &A, xs: &Vec<Double>) -> (r: Double)
    requires
        is_unit(*arith),
    ensures
        r == mean(*arith, xs@),
{
    let total: Double = sum_of(arith, xs);
    let count: Double = arith(Op::Of(xs.len() as u64));
    arith(Op::Div(total, count))
}

/// The sample standard deviation of a list of at least one number.
pub fn sample_std_of<A: Fn(Op) -> Double>(arith: &A, xs: &Vec<Double>) -> (r: Double)
    requires
        is_unit(*arith),
        xs@.len() >= 1,
    ensures
        r == sample_std(*arith, xs@),
{
    let m: Double = mean_of(arith, xs);
    let mut squares: Vec<Double> = Vec::new();
    let mut i: usize = 0;
    while i < xs.len()
        invariant
            i <= xs.len(),
            is_unit(*arith),
            squares@ =~= squared_deviations(*arith, xs@, m).take(i as int),
        decreases xs.len() - i,
    {
        let d: Double = arith(Op::Sub(xs[i], m));
        squares.push(arith(Op::Mul(d, d)));
        i += 1;
    }
    assert(squares@ =~= squared_deviations(*arith, xs@, m));
    let total: Double = sum_of(arith, &squares);
    let below: Double = arith(Op::Of((xs.len() - 1) as u64));
    let variance: Double = arith(Op::Div(total, below));
    arith(Op::Sqrt(variance))
}

/// Compares in the IEEE total order.
pub fn total_at_most(x: Double, y: Double) -> (r: bool)
    ensures
        r == total_le()(x, y),
{
    if x.bits < SIGN {
        y.bits < SIGN && x.bits <= y.bits
    } else {
        y.bits < SIGN || y.bits <= x.bits
    }
}

/// Sorts into ascending total order.
pub fn sort_total(xs: &Vec<Double>) -> (r: Vec<Double>)
    ensures
        r@ == ascending(xs@),
        r@.len() == xs@.len(),
        r@.to_multiset() == xs@.to_multiset(),
        sorted_by(r@, total_le()),
{
    let mut out: Vec<Double> = Vec::new();
    let mut i: usize = 0;
    assert(out@ =~= xs@.take(0));
    while i < xs.len()
        invariant
            i <= xs.len(),
            out@.len() == i,
            sorted_by(out@, total_le()),
            out@.to_multiset() == xs@.take(i as int).to_multiset(),
        decreases xs.len() - i,
    {
        let x: Double = xs[i];
        let mut at: usize = out.len();
        while at > 0 && !total_at_most(out[at - 1], x)
            invariant
                at <= out@.len(),
                forall|k: int| at <= k < out@.len() ==> !total_le()(#[trigger] out@[k], x),
            decreases at,
        {
            at -= 1;
        }
        let ghost before = out@;
        proof {
            broadcast use vstd::seq_lib::group_to_multiset_ensures;

            lemma_total_le();
            assert(xs@.take(i + 1) =~= xs@.take(i as int).push(x));
            if at > 0 {
                assert forall|k: int| 0 <= k < at implies total_le()(#[trigger] before[k], x) by {
                    assert(k < at - 1 ==> total_le()(before[k], before[at - 1]));
                }
            }
        }
        out.insert(at, x);
        i += 1;
    }
    proof {
        broadcast use vstd::seq_lib::group_to_multiset_ensures;

        assert(xs@.take(i as int) =~= xs@);
        lemma_total_le();
        xs@.lemma_sort_by_ensures(total_le());
        vstd::seq_lib::lemma_sorted_unique(out@, ascending(xs@), total_le());
    }
    out
}

} // verus!
