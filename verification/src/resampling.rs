//! What an interval is made of: which pairs each resample draws, and where in
//! the sorted ratios the bounds are read.

use crate::bootstrap::{
    firsts, interpolated, interval, resample, resampled_ratios, seconds, tail,
    ConfidenceIntervalConfig,
};
use crate::bounds::{
    all_fair, is_interval_config, lemma_sorted_ratios, lemma_tail, resamples_stay_finite,
};
use crate::double::{ascending, eval, sum, total_le, Double, Op};
use crate::ieee::{
    in_unit, lemma_constants, lemma_orders, lemma_quanta_order, one, quanta, rounded, rounds, unity,
    zero,
};
use crate::ordering::lemma_near_line;
use crate::precision::lemma_rounded_reduced;
use crate::rng::{lemma_state_after_adds, output, state_after};
use vstd::prelude::*;

verus! {

/// Every place of every resample uses its own draw: the pair in place `k` of
/// resample `j` over `n` pairs is the one at the number that the source gives at
/// draw `j * n + k + 1`, modulo `n`. The ratio is that of the sum of the first
/// components in all places to the sum of the second.
pub proof fn law_every_place_has_its_own_draw<A: Fn(Op) -> Double>(
    a: A,
    pairs: Seq<(Double, Double)>,
    state: u64,
    count: nat,
    j: int,
)
    requires
        pairs.len() > 0,
        0 <= j < count,
    ensures
        ({
            let n = pairs.len() as int;
            let drawn = Seq::new(
                pairs.len(),
                |k: int| pairs[output(state_after(state, (j * n + k + 1) as nat)) as int % n],
            );
            &&& resampled_ratios(a, pairs, state, count).len() == count
            &&& resampled_ratios(a, pairs, state, count)[j] == eval(
                a,
                Op::Div(
                    sum(a, drawn.map_values(|p: (Double, Double)| p.0)),
                    sum(a, drawn.map_values(|p: (Double, Double)| p.1)),
                ),
            )
        }),
{
    let n = pairs.len() as int;
    let drawn = Seq::new(
        pairs.len(),
        |k: int| pairs[output(state_after(state, (j * n + k + 1) as nat)) as int % n],
    );
    assert(j * n >= 0) by (nonlinear_arith)
        requires
            j >= 0,
            n >= 0,
    ;
    let start = state_after(state, (j * n) as nat);
    assert forall|k: int| 0 <= k < n implies resample(pairs, start)[k] == #[trigger] drawn[k] by {
        lemma_state_after_adds(state, (j * n) as nat, (k + 1) as nat);
    }
    assert(resample(pairs, start) =~= drawn);
    assert(firsts(drawn) =~= drawn.map_values(|p: (Double, Double)| p.0));
    assert(seconds(drawn) =~= drawn.map_values(|p: (Double, Double)| p.1));
}

/// The bounds of an interval are read from the ratios of the resamples in
/// ascending order: the one bound half of what the level leaves of the way
/// through them, and the other as far from their end. Each of these numbers is
/// the one nearest to what it is computed from, and the lesser bound is the
/// lower.
pub proof fn law_bounds_leave_equal_tails<A: Fn(Op) -> Double>(
    a: A,
    pairs: Seq<(Double, Double)>,
    cfg: ConfidenceIntervalConfig,
    state: u64,
)
    requires
        rounds(a),
        pairs.len() > 0,
        all_fair(pairs),
        resamples_stay_finite(a, pairs, state, cfg.bootstrap_samples as nat),
        is_interval_config(cfg),
    ensures
        exists|sorted: Seq<Double>, left: Double, below: Double, above: Double|
            {
                let x = quanta(#[trigger] interpolated(a, sorted, below));
                let y = quanta(#[trigger] interpolated(a, sorted, above));
                let (low, high) = interval(a, pairs, cfg, state);
                let ratios = resampled_ratios(a, pairs, state, cfg.bootstrap_samples as nat);
                &&& sorted.to_multiset() == ratios.to_multiset()
                &&& sorted.len() == cfg.bootstrap_samples
                &&& forall|i: int, k: int|
                    0 <= i <= k < sorted.len() ==> quanta(#[trigger] sorted[i]) <= quanta(
                        #[trigger] sorted[k],
                    )
                &&& forall|i: int| 0 <= i < sorted.len() ==> in_unit(#[trigger] sorted[i])
                &&& rounded(left, unity() - quanta(cfg.confidence_level), 1)
                &&& #[trigger] rounded(below, quanta(left), 2)
                &&& rounded(above, unity() - quanta(below), 1)
                &&& in_unit(below)
                &&& in_unit(above)
                &&& quanta(low) == (if x <= y {
                    x
                } else {
                    y
                })
                &&& quanta(high) == (if x <= y {
                    y
                } else {
                    x
                })
            },
{
    let level = cfg.confidence_level;
    let count = cfg.bootstrap_samples as nat;
    let ratios = resampled_ratios(a, pairs, state, count);
    let sorted = ascending(ratios);
    lemma_constants();
    lemma_orders(a);
    lemma_sorted_ratios(a, pairs, state, count);
    ratios.lemma_sort_by_ensures(total_le());
    lemma_tail(a, level);
    let left = eval(a, Op::Sub(one(), level));
    let below = tail(a, level);
    let above = eval(a, Op::Sub(one(), below));
    lemma_quanta_order(zero(), level);
    lemma_quanta_order(level, one());
    let u = unity();
    assert(left.finite()) by {
        assert(left.at_most(one()) && zero().at_most(left));
    }
    lemma_rounded_reduced(below, quanta(left), 2, u);
    assert forall|i: int, k: int| 0 <= i <= k < sorted.len() implies quanta(#[trigger] sorted[i])
        <= quanta(#[trigger] sorted[k]) by {
        assert(in_unit(sorted[i]) && in_unit(sorted[k]));
        if i < k {
            assert(total_le()(sorted[i], sorted[k]));
        }
        lemma_quanta_order(sorted[i], sorted[k]);
    }
    lemma_near_line(a, sorted, below);
    lemma_near_line(a, sorted, above);
    let (x, y) = (interpolated(a, sorted, below), interpolated(a, sorted, above));
    lemma_quanta_order(x, y);
    lemma_quanta_order(y, x);
    assert(rounded(below, quanta(left), 2));
}

} // verus!
