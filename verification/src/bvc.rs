//! Bulk Volume Classification: the buy side of a bucket's volume is the
//! standard normal probability of its price change, standardized by the
//! rolling deviation of bucket-to-bucket price changes.

use crate::double::{eval, is_unit, Double, Op, FRAC_1_SQRT_2, HALF, ONE};
use vstd::prelude::*;

verus! {

/// The standard normal distribution function, through the error function:
/// half of one plus erf of `x` over the square root of two.
pub open spec fn normal_cdf<A: Fn(Op) -> Double>(a: A, x: Double) -> Double {
    eval(
        a,
        Op::Mul(
            Double { bits: HALF },
            eval(
                a,
                Op::Add(
                    Double { bits: ONE },
                    eval(
                        a,
                        Op::Erf(eval(a, Op::Mul(x, Double { bits: FRAC_1_SQRT_2 }))),
                    ),
                ),
            ),
        ),
    )
}

/// Whether a price change can be standardized by `sigma`.
pub open spec fn classifiable(delta_p: Double, sigma: Double) -> bool {
    sigma.finite() && sigma.positive() && delta_p.finite()
}

/// The buy-side fraction of a bucket's volume.
pub open spec fn buy_side<A: Fn(Op) -> Double>(a: A, delta_p: Double, sigma: Double) -> Double {
    normal_cdf(a, eval(a, Op::Div(delta_p, sigma)))
}

/// A bucket's volume as its buy side and the rest.
pub open spec fn sides<A: Fn(Op) -> Double>(
    a: A,
    delta_p: Double,
    sigma: Double,
    volume: Double,
) -> (Double, Double) {
    let buy = eval(a, Op::Mul(volume, buy_side(a, delta_p, sigma)));
    (buy, eval(a, Op::Sub(volume, buy)))
}

pub fn standard_normal_cdf<A: Fn(Op) -> Double>(arith: &A, x: Double) -> (r: Double)
    requires
        is_unit(*arith),
    ensures
        r == normal_cdf(*arith, x),
{
    let scaled: Double = arith(Op::Mul(x, Double { bits: FRAC_1_SQRT_2 }));
    let e: Double = arith(Op::Erf(scaled));
    let raised: Double = arith(Op::Add(Double { bits: ONE }, e));
    arith(Op::Mul(Double { bits: HALF }, raised))
}

/// The buy-side fraction of a bucket's volume. `None` when `sigma` is not
/// finite and strictly positive, or `delta_p` not finite: such a bucket is to
/// be skipped.
pub fn buy_fraction<A: Fn(Op) -> Double>(arith: &A, delta_p: Double, sigma: Double) -> (r: Option<
    Double,
>)
    requires
        is_unit(*arith),
    ensures
        r == (if classifiable(delta_p, sigma) {
            Some(buy_side(*arith, delta_p, sigma))
        } else {
            None
        }),
{
    if !(sigma.is_finite() && sigma.is_positive()) || !delta_p.is_finite() {
        return None;
    }
    let z: Double = arith(Op::Div(delta_p, sigma));
    Some(standard_normal_cdf(arith, z))
}

/// Splits `volume` into its buy and its sell side. `None` under the same
/// conditions as `buy_fraction`.
pub fn classify<A: Fn(Op) -> Double>(
    arith: &A,
    delta_p: Double,
    sigma: Double,
    volume: Double,
) -> (r: Option<(Double, Double)>)
    requires
        is_unit(*arith),
    ensures
        r == (if classifiable(delta_p, sigma) {
            Some(sides(*arith, delta_p, sigma, volume))
        } else {
            None
        }),
{
    match buy_fraction(arith, delta_p, sigma) {
        None => None,
        Some(frac) => {
            let buy: Double = arith(Op::Mul(volume, frac));
            Some((buy, arith(Op::Sub(volume, buy))))
        },
    }
}

} // verus!
