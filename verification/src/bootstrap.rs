//! Percentile bootstrap confidence interval for a ratio of sums.

use crate::double::{
    ascending, eval, is_unit, sort_total, sum, sum_of, Double, Op, ONE, TWO,
};
use crate::rng::{lemma_state_after_adds, output, state_after, SplitMix64};
use vstd::prelude::*;

verus! {

/// Settings for the bootstrap confidence interval.
#[derive(Clone, Copy, Debug, PartialEq, Eq, Structural)]
pub struct ConfidenceIntervalConfig {
    /// Strictly between 0 and 1.
    pub confidence_level: Double,
    /// Resamples drawn per interval, at least two.
    pub bootstrap_samples: usize,
    /// Seed of the number source: the same tape through the same settings
    /// gives the same bounds, bit for bit.
    pub seed: u64,
}

pub open spec fn firsts(pairs: Seq<(Double, Double)>) -> Seq<Double> {
    pairs.map_values(|p: (Double, Double)| p.0)
}

pub open spec fn seconds(pairs: Seq<(Double, Double)>) -> Seq<Double> {
    pairs.map_values(|p: (Double, Double)| p.1)
}

/// The sum of the first components over the sum of the second.
pub open spec fn ratio<A: Fn(Op) -> Double>(a: A, pairs: Seq<(Double, Double)>) -> Double {
    eval(a, Op::Div(sum(a, firsts(pairs)), sum(a, seconds(pairs))))
}

/// The index that the `k`-th draw from `state` picks among `n`.
pub open spec fn drawn_index(state: u64, k: int, n: nat) -> int {
    output(state_after(state, (k + 1) as nat)) as int % n as int
}

/// One resample: as many pairs as there are, drawn with replacement, each
/// imbalance with its own volume.
pub open spec fn resample(pairs: Seq<(Double, Double)>, state: u64) -> Seq<(Double, Double)> {
    Seq::new(pairs.len(), |k: int| pairs[drawn_index(state, k, pairs.len())])
}

/// The ratios of `count` resamples drawn one after the other from `state`.
pub open spec fn resampled_ratios<A: Fn(Op) -> Double>(
    a: A,
    pairs: Seq<(Double, Double)>,
    state: u64,
    count: nat,
) -> Seq<Double> {
    Seq::new(
        count,
        |j: int| ratio(a, resample(pairs, state_after(state, (j * pairs.len()) as nat))),
    )
}

/// The value at fraction `p` of the way through sorted values: linear between
/// the two nearest ranks. A rank outside the list is read as its nearest end.
pub open spec fn interpolated<A: Fn(Op) -> Double>(a: A, sorted: Seq<Double>, p: Double) -> Double {
    let rank = eval(a, Op::Mul(p, eval(a, Op::Of((sorted.len() - 1) as u64))));
    let lo = if rank.whole() < sorted.len() {
        rank.whole() as int
    } else {
        sorted.len() - 1
    };
    let hi = if lo + 1 < sorted.len() {
        lo + 1
    } else {
        lo
    };
    let base = eval(a, Op::Of(lo as u64));
    let frac = eval(a, Op::Sub(rank, base));
    if sorted.len() == 1 || !rank.positive() {
        sorted[0]
    } else if base.equal(rank) {
        sorted[lo]
    } else {
        eval(
            a,
            Op::Add(
                eval(a, Op::Mul(sorted[lo], eval(a, Op::Sub(Double { bits: ONE }, frac)))),
                eval(a, Op::Mul(sorted[hi], frac)),
            ),
        )
    }
}

/// The share of the distribution below the interval: half of what the
/// confidence level leaves.
pub open spec fn tail<A: Fn(Op) -> Double>(a: A, level: Double) -> Double {
    eval(a, Op::Div(eval(a, Op::Sub(Double { bits: ONE }, level)), Double { bits: TWO }))
}

/// Two numbers, the lesser first.
pub open spec fn in_order(x: Double, y: Double) -> (Double, Double) {
    if y.below(x) {
        (y, x)
    } else {
        (x, y)
    }
}

/// The interval: the values that leave one tail below and one above among the
/// sorted resampled ratios. Interpolating rounds, and can put the one that
/// leaves a tail below above the other where the two are all but equal: the
/// lesser one is the lower bound in any case.
pub open spec fn interval<A: Fn(Op) -> Double>(
    a: A,
    pairs: Seq<(Double, Double)>,
    cfg: ConfidenceIntervalConfig,
    state: u64,
) -> (Double, Double) {
    let sorted = ascending(resampled_ratios(a, pairs, state, cfg.bootstrap_samples as nat));
    in_order(
        interpolated(a, sorted, tail(a, cfg.confidence_level)),
        interpolated(
            a,
            sorted,
            eval(a, Op::Sub(Double { bits: ONE }, tail(a, cfg.confidence_level))),
        ),
    )
}

/// The ratio of the sums of a list of pairs.
pub fn ratio_of<A: Fn(Op) -> Double>(arith: &A, pairs: &Vec<(Double, Double)>) -> (r: Double)
    requires
        is_unit(*arith),
    ensures
        r == ratio(*arith, pairs@),
{
    let mut above: Vec<Double> = Vec::new();
    let mut under: Vec<Double> = Vec::new();
    let mut i: usize = 0;
    while i < pairs.len()
        invariant
            i <= pairs@.len(),
            above@ =~= firsts(pairs@).take(i as int),
            under@ =~= seconds(pairs@).take(i as int),
        decreases pairs.len() - i,
    {
        let (x, y): (Double, Double) = pairs[i];
        above.push(x);
        under.push(y);
        i += 1;
    }
    assert(above@ =~= firsts(pairs@));
    assert(under@ =~= seconds(pairs@));
    let numerator: Double = sum_of(arith, &above);
    let denominator: Double = sum_of(arith, &under);
    arith(Op::Div(numerator, denominator))
}

/// Draws one resample.
fn draw_resample(pairs: &Vec<(Double, Double)>, rng: &mut SplitMix64) -> (r: Vec<(Double, Double)>)
    requires
        pairs@.len() >= 1,
    ensures
        r@ == resample(pairs@, old(rng)@),
        final(rng)@ == state_after(old(rng)@, pairs@.len()),
{
    let n: usize = pairs.len();
    let mut out: Vec<(Double, Double)> = Vec::new();
    let mut k: usize = 0;
    let ghost start = rng@;
    while k < n
        invariant
            k <= n,
            n == pairs@.len(),
            n >= 1,
            rng@ == state_after(start, k as nat),
            out@ =~= resample(pairs@, start).take(k as int),
        decreases n - k,
    {
        proof {
            lemma_state_after_adds(start, k as nat, 1);
        }
        let at: usize = rng.next_index(n);
        out.push(pairs[at]);
        k += 1;
    }
    assert(out@ =~= resample(pairs@, start));
    out
}

/// Linear interpolation between the two nearest ranks of an ascending list.
pub fn percentile<A: Fn(Op) -> Double>(arith: &A, sorted: &Vec<Double>, p: Double) -> (r: Double)
    requires
        is_unit(*arith),
        sorted@.len() >= 1,
    ensures
        r == interpolated(*arith, sorted@, p),
{
    let n: usize = sorted.len();
    if n == 1 {
        return sorted[0];
    }
    let span: Double = arith(Op::Of((n - 1) as u64));
    let rank: Double = arith(Op::Mul(p, span));
    if !rank.is_positive() {
        return sorted[0];
    }
    let floor: u64 = rank.truncate();
    let lo: usize = if floor < n as u64 {
        floor as usize
    } else {
        n - 1
    };
    let base: Double = arith(Op::Of(lo as u64));
    if base.same(rank) {
        return sorted[lo];
    }
    let hi: usize = if lo + 1 < n {
        lo + 1
    } else {
        lo
    };
    let frac: Double = arith(Op::Sub(rank, base));
    let rest: Double = arith(Op::Sub(Double { bits: ONE }, frac));
    let low_part: Double = arith(Op::Mul(sorted[lo], rest));
    let high_part: Double = arith(Op::Mul(sorted[hi], frac));
    arith(Op::Add(low_part, high_part))
}

/// The confidence interval of the ratio over a non-empty window of pairs.
/// Pairs are resampled together: a resample has to keep each imbalance with
/// the volume it came from, or its ratio estimates something else.
pub fn bootstrap_ci<A: Fn(Op) -> Double>(
    arith: &A,
    pairs: &Vec<(Double, Double)>,
    cfg: &ConfidenceIntervalConfig,
    rng: &mut SplitMix64,
) -> (r: (Double, Double))
    requires
        is_unit(*arith),
        pairs@.len() >= 1,
        cfg.bootstrap_samples >= 1,
    ensures
        r == interval(*arith, pairs@, *cfg, old(rng)@),
        final(rng)@ == state_after(old(rng)@, cfg.bootstrap_samples as nat * pairs@.len()),
{
    let mut samples: Vec<Double> = Vec::new();
    let mut j: usize = 0;
    let ghost start = rng@;
    let ghost n = pairs@.len();
    assert(0 * n == 0) by (nonlinear_arith);
    while j < cfg.bootstrap_samples
        invariant
            is_unit(*arith),
            n == pairs@.len(),
            n >= 1,
            j <= cfg.bootstrap_samples,
            rng@ == state_after(start, j as nat * n),
            samples@ =~= resampled_ratios(*arith, pairs@, start, j as nat),
        decreases cfg.bootstrap_samples - j,
    {
        proof {
            lemma_state_after_adds(start, j as nat * n, n);
            assert((j + 1) as nat * n == j as nat * n + n) by (nonlinear_arith);
        }
        let drawn: Vec<(Double, Double)> = draw_resample(pairs, rng);
        samples.push(ratio_of(arith, &drawn));
        j += 1;
    }
    let sorted: Vec<Double> = sort_total(&samples);
    let left: Double = arith(Op::Sub(Double { bits: ONE }, cfg.confidence_level));
    let below: Double = arith(Op::Div(left, Double { bits: TWO }));
    let above: Double = arith(Op::Sub(Double { bits: ONE }, below));
    let low: Double = percentile(arith, &sorted, below);
    let high: Double = percentile(arith, &sorted, above);
    if high.lt(low) {
        (high, low)
    } else {
        (low, high)
    }
}

/// The confidence level decides which ranks are read, and nothing else: two
/// levels read the very same sorted resamples.
pub proof fn law_the_level_only_picks_the_ranks<A: Fn(Op) -> Double>(
    a: A,
    pairs: Seq<(Double, Double)>,
    cfg: ConfidenceIntervalConfig,
    level: Double,
    state: u64,
)
    ensures
        ({
            let sorted = ascending(
                resampled_ratios(a, pairs, state, cfg.bootstrap_samples as nat),
            );
            let other = ConfidenceIntervalConfig { confidence_level: level, ..cfg };
            let upper = |l: Double| eval(a, Op::Sub(Double { bits: ONE }, tail(a, l)));
            &&& interval(a, pairs, cfg, state) == in_order(
                interpolated(a, sorted, tail(a, cfg.confidence_level)),
                interpolated(a, sorted, upper(cfg.confidence_level)),
            )
            &&& interval(a, pairs, other, state) == in_order(
                interpolated(a, sorted, tail(a, level)),
                interpolated(a, sorted, upper(level)),
            )
        }),
{
}

} // verus!
