//! What a rank is: the share of what a value is ranked among that does not
//! exceed it, as near as a double comes.

use crate::bounds::lemma_filter_len;
use crate::double::{eval, Double, Op};
use crate::ieee::{
    lemma_constants, lemma_orders, lemma_quanta_order, quanta, rounded, rounds, unity, zero, EXACT,
};
use crate::intensity::{
    adjusted_rank, cohort, intensities, intensity_after, is_busy, median, IntensityState,
};
use crate::precision::lemma_rounded_reduced;
use crate::vpin::{cdf_after, cdf_rank, count_at_most, rank, CdfState};
use vstd::prelude::*;

verus! {

/// A rank is the number of values that do not exceed the ranked one over the
/// number of values, rounded once.
pub proof fn law_rank_is_the_share_not_above<A: Fn(Op) -> Double>(
    a: A,
    values: Seq<Double>,
    value: Double,
)
    requires
        rounds(a),
        0 < values.len() <= EXACT,
    ensures
        rounded(
            rank(a, values, value),
            values.filter(|v: Double| v.at_most(value)).len() * unity(),
            values.len() as int,
        ),
{
    lemma_orders(a);
    lemma_constants();
    let keep = |v: Double| v.at_most(value);
    let (k, n, u) = (values.filter(keep).len() as int, values.len() as int, unity());
    assert(0 <= k <= n) by {
        lemma_filter_len(values, keep);
    }
    assert(k == count_at_most(values, value));
    let (x, y) = (eval(a, Op::Of(k as u64)), eval(a, Op::Of(n as u64)));
    lemma_quanta_order(y, zero());
    assert(quanta(x) == k * u && quanta(y) == n * u);
    lemma_rounded_reduced(rank(a, values, value), k * u, n, u);
}

/// The rank of a value within a rolling window: there is one once the window is
/// full, the value is among the values it is ranked against, and of those only
/// the last so many count.
pub proof fn law_rolling_rank_is_the_share_not_above<A: Fn(Op) -> Double>(
    a: A,
    s: CdfState,
    value: Double,
)
    requires
        rounds(a),
        1 <= s.window <= EXACT,
        s.values.len() <= s.window,
    ensures
        ({
            let kept = if s.values.len() == s.window {
                s.values.drop_first()
            } else {
                s.values
            };
            let values = kept.push(value);
            &&& cdf_after(s, value).values == values
            &&& cdf_rank(a, s, value) is Some <==> values.len() == s.window
            &&& cdf_rank(a, s, value) matches Some(r) ==> rounded(
                r,
                values.filter(|v: Double| v.at_most(value)).len() * unity(),
                s.window as int,
            )
        }),
{
    let values = cdf_after(s, value).values;
    if values.len() == s.window {
        law_rank_is_the_share_not_above(a, values, value);
    }
}

/// Counting what passes twice is counting what passes both.
proof fn lemma_filter_twice(
    h: Seq<(Double, u32)>,
    keep: spec_fn((Double, u32)) -> bool,
    first: spec_fn((Double, u32)) -> Double,
    within: spec_fn(Double) -> bool,
    both: spec_fn((Double, u32)) -> bool,
)
    requires
        forall|p: (Double, u32)| #[trigger] both(p) == (keep(p) && within(first(p))),
    ensures
        h.filter(keep).map_values(first).filter(within).len() == h.filter(both).len(),
        h.filter(keep).map_values(first).len() == h.filter(keep).len(),
    decreases h.len(),
{
    reveal(Seq::filter);
    if h.len() > 0 {
        let init = h.drop_last();
        lemma_filter_twice(init, keep, first, within, both);
        let (x, y) = (h.filter(keep).map_values(first), init.filter(keep).map_values(first));
        assert(both(h.last()) == (keep(h.last()) && within(first(h.last()))));
        if keep(h.last()) {
            assert(x =~= y.push(first(h.last())));
            assert(x.drop_last() =~= y);
        } else {
            assert(x =~= y);
        }
    } else {
        assert(h.filter(keep).map_values(first) =~= Seq::<Double>::empty());
    }
}

/// The rank of a reading among similarly busy buckets. The window is split at
/// its median trade count: a bucket with fewer trades is ranked with those that
/// have fewer, and one with as many or more with those that have as many or
/// more, never across. On its own side, the rank is the share of the readings
/// that do not exceed it.
pub proof fn law_adjusted_rank_is_the_share_of_its_side<A: Fn(Op) -> Double>(
    a: A,
    s: IntensityState,
    vpin: Double,
    trades: u32,
)
    requires
        rounds(a),
        1 <= s.window <= EXACT,
        s.history.len() <= s.window,
    ensures
        ({
            let kept = if s.history.len() == s.window {
                s.history.drop_first()
            } else {
                s.history
            };
            let h = kept.push((vpin, trades));
            let m = median(h.map_values(|p: (Double, u32)| p.1));
            let side = if trades >= m {
                h.filter(|p: (Double, u32)| p.1 >= m)
            } else {
                h.filter(|p: (Double, u32)| p.1 < m)
            };
            let passed = if trades >= m {
                h.filter(|p: (Double, u32)| p.1 >= m && p.0.at_most(vpin))
            } else {
                h.filter(|p: (Double, u32)| p.1 < m && p.0.at_most(vpin))
            };
            &&& intensity_after(s, vpin, trades).history == h
            &&& adjusted_rank(a, s, vpin, trades) is Some <==> h.len() == s.window
            &&& adjusted_rank(a, s, vpin, trades) matches Some(r) ==> {
                &&& side.len() > 0
                &&& rounded(r, passed.len() * unity(), side.len() as int)
            }
        }),
{
    let h = intensity_after(s, vpin, trades).history;
    let m = median(intensities(h));
    assert(intensities(h) =~= h.map_values(|p: (Double, u32)| p.1));
    assert(h.last() == (vpin, trades));
    let own = cohort(h, trades);
    let first = |p: (Double, u32)| p.0;
    let within = |v: Double| v.at_most(vpin);
    let same = |p: (Double, u32)| is_busy(p.1, m) == is_busy(trades, m);
    assert(own =~= h.filter(same).map_values(first));
    if trades >= m {
        let keep = |p: (Double, u32)| p.1 >= m;
        let both = |p: (Double, u32)| p.1 >= m && p.0.at_most(vpin);
        lemma_same_filter(h, same, keep);
        lemma_filter_twice(h, keep, first, within, both);
        assert(h.filter(keep).len() > 0) by {
            reveal(Seq::filter);
        }
        lemma_filter_len(h, keep);
    } else {
        let keep = |p: (Double, u32)| p.1 < m;
        let both = |p: (Double, u32)| p.1 < m && p.0.at_most(vpin);
        lemma_same_filter(h, same, keep);
        lemma_filter_twice(h, keep, first, within, both);
        assert(h.filter(keep).len() > 0) by {
            reveal(Seq::filter);
        }
        lemma_filter_len(h, keep);
    }
    if h.len() == s.window {
        law_rank_is_the_share_not_above(a, own, vpin);
    }
}

/// Tests that agree keep the same.
proof fn lemma_same_filter<T>(s: Seq<T>, keep: spec_fn(T) -> bool, other: spec_fn(T) -> bool)
    requires
        forall|x: T| #[trigger] keep(x) == other(x),
    ensures
        s.filter(keep) == s.filter(other),
    decreases s.len(),
{
    reveal(Seq::filter);
    if s.len() > 0 {
        lemma_same_filter(s.drop_last(), keep, other);
        assert(keep(s.last()) == other(s.last()));
    }
}

} // verus!
