//! VPIN's rank within the similarly busy buckets. A spike that is unremarkable
//! for how busy the market is right now does not rank like one that is
//! unusual.

use crate::double::{is_unit, Double, Op};
use crate::error::VpinError;
use crate::vpin::{rank, rank_of};
use crate::window::{slide, RollingWindow};
use vstd::prelude::*;
use vstd::relations::{sorted_by, total_ordering};

verus! {

pub open spec fn count_le() -> spec_fn(u32, u32) -> bool {
    |x: u32, y: u32| x <= y
}

/// The median of a list: of its values in ascending order the one at half its
/// length, the upper of the two middle ones in a list of even length.
pub open spec fn median(values: Seq<u32>) -> u32 {
    values.sort_by(count_le())[values.len() as int / 2]
}

/// Whether a bucket of `trades` trades is on the busy side. A tie with the
/// median is busy: otherwise a repeated median would belong to neither side.
pub open spec fn is_busy(trades: u32, median: u32) -> bool {
    trades >= median
}

pub open spec fn intensities(history: Seq<(Double, u32)>) -> Seq<u32> {
    history.map_values(|p: (Double, u32)| p.1)
}

/// The readings on the same side of the median as a bucket of `trades` trades,
/// oldest first.
pub open spec fn cohort(history: Seq<(Double, u32)>, trades: u32) -> Seq<Double> {
    let m = median(intensities(history));
    history.filter(|p: (Double, u32)| is_busy(p.1, m) == is_busy(trades, m)).map_values(
        |p: (Double, u32)| p.0,
    )
}

/// What an adjusted rank holds: the window's length, and the readings in it
/// with their trade counts, oldest first.
pub struct IntensityState {
    pub window: nat,
    pub history: Seq<(Double, u32)>,
}

pub open spec fn intensity_after(s: IntensityState, vpin: Double, trades: u32) -> IntensityState {
    IntensityState { window: s.window, history: slide(s.window, s.history, (vpin, trades)) }
}

/// The rank of a reading within its cohort, itself included, once the window
/// is full.
pub open spec fn adjusted_rank<A: Fn(Op) -> Double>(
    a: A,
    s: IntensityState,
    vpin: Double,
    trades: u32,
) -> Option<Double> {
    let history = intensity_after(s, vpin, trades).history;
    if history.len() == s.window {
        Some(rank(a, cohort(history, trades), vpin))
    } else {
        None
    }
}

/// The median of a non-empty list.
pub fn median_u32(values: &Vec<u32>) -> (r: u32)
    requires
        values@.len() >= 1,
    ensures
        r == median(values@),
{
    let mut out: Vec<u32> = Vec::new();
    let mut i: usize = 0;
    assert(out@ =~= values@.take(0));
    while i < values.len()
        invariant
            i <= values@.len(),
            out@.len() == i,
            sorted_by(out@, count_le()),
            out@.to_multiset() == values@.take(i as int).to_multiset(),
        decreases values.len() - i,
    {
        let x: u32 = values[i];
        let mut at: usize = out.len();
        while at > 0 && out[at - 1] > x
            invariant
                at <= out@.len(),
                forall|k: int| at <= k < out@.len() ==> #[trigger] out@[k] > x,
            decreases at,
        {
            at -= 1;
        }
        let ghost before = out@;
        proof {
            broadcast use vstd::seq_lib::group_to_multiset_ensures;

            assert(values@.take(i + 1) =~= values@.take(i as int).push(x));
            if at > 0 {
                assert forall|k: int| 0 <= k < at implies #[trigger] before[k] <= x by {
                    assert(k < at - 1 ==> count_le()(before[k], before[at - 1]));
                }
            }
        }
        out.insert(at, x);
        i += 1;
    }
    proof {
        broadcast use vstd::seq_lib::group_to_multiset_ensures;

        assert(values@.take(i as int) =~= values@);
        assert(total_ordering(count_le()));
        values@.lemma_sort_by_ensures(count_le());
        vstd::seq_lib::lemma_sorted_unique(out@, values@.sort_by(count_le()), count_le());
    }
    out[out.len() / 2]
}

/// Percentile rank within a cohort of similarly busy buckets: the rolling
/// window is split at the median trade count observed in it, and a reading is
/// ranked against its own side only.
pub struct IntensityAdjustedCdf {
    history: RollingWindow<(Double, u32)>,
}

impl View for IntensityAdjustedCdf {
    type V = IntensityState;

    closed spec fn view(&self) -> IntensityState {
        IntensityState { window: self.history.cap(), history: self.history@ }
    }
}

impl IntensityAdjustedCdf {
    pub closed spec fn wf(&self) -> bool {
        self.history.wf() && self.history.cap() >= 4
    }

    /// Four readings are the least for both a median and a rank on each side.
    pub fn new(window: usize) -> (r: Result<Self, VpinError>)
        ensures
            match r {
                Ok(c) => window >= 4 && c.wf() && c@ == (IntensityState {
                    window: window as nat,
                    history: Seq::empty(),
                }),
                Err(e) => window < 4 && e == (VpinError::InvalidWindow { got: window, min: 4 }),
            },
    {
        if window < 4 {
            return Err(VpinError::InvalidWindow { got: window, min: 4 });
        }
        let c = IntensityAdjustedCdf { history: RollingWindow::new(window) };
        assert(c@.history =~= Seq::empty());
        Ok(c)
    }

    /// Pushes a reading in and returns its rank within its cohort, none until
    /// the window fills.
    pub fn push<A: Fn(Op) -> Double>(
        &mut self,
        arith: &A,
        vpin: Double,
        trades_in_bucket: u32,
    ) -> (r: Option<Double>)
        requires
            is_unit(*arith),
            old(self).wf(),
        ensures
            final(self).wf(),
            final(self)@ == intensity_after(old(self)@, vpin, trades_in_bucket),
            r == adjusted_rank(*arith, old(self)@, vpin, trades_in_bucket),
    {
        self.history.push((vpin, trades_in_bucket));
        if !self.history.is_full() {
            return None;
        }
        let pairs: Vec<(Double, u32)> = self.history.to_vec();
        let mut counts: Vec<u32> = Vec::new();
        let mut i: usize = 0;
        while i < pairs.len()
            invariant
                i <= pairs@.len(),
                counts@ =~= intensities(pairs@).take(i as int),
            decreases pairs.len() - i,
        {
            counts.push(pairs[i].1);
            i += 1;
        }
        assert(counts@ =~= intensities(pairs@));
        let m: u32 = median_u32(&counts);
        let busy: bool = trades_in_bucket >= m;
        let mut own: Vec<Double> = Vec::new();
        let mut j: usize = 0;
        let ghost keep = |p: (Double, u32)| is_busy(p.1, m) == is_busy(trades_in_bucket, m);
        let ghost value = |p: (Double, u32)| p.0;
        proof {
            reveal(Seq::filter);
            assert(own@ =~= pairs@.take(0).filter(keep).map_values(value));
        }
        while j < pairs.len()
            invariant
                j <= pairs@.len(),
                busy == is_busy(trades_in_bucket, m),
                keep == (|p: (Double, u32)| is_busy(p.1, m) == is_busy(trades_in_bucket, m)),
                value == (|p: (Double, u32)| p.0),
                own@ == pairs@.take(j as int).filter(keep).map_values(value),
            decreases pairs.len() - j,
        {
            proof {
                reveal(Seq::filter);
                assert(pairs@.take(j + 1).drop_last() =~= pairs@.take(j as int));
            }
            if (pairs[j].1 >= m) == busy {
                own.push(pairs[j].0);
            }
            j += 1;
            assert(own@ =~= pairs@.take(j as int).filter(keep).map_values(value));
        }
        assert(pairs@.take(j as int) =~= pairs@);
        Some(rank_of(arith, &own, vpin))
    }
}

/// What a filter keeps depends on what there is, not on its order.
proof fn lemma_filter_of_multiset<T>(s: Seq<T>, keep: spec_fn(T) -> bool)
    ensures
        s.filter(keep).to_multiset() =~= s.to_multiset().filter(keep),
    decreases s.len(),
{
    broadcast use {
        vstd::seq_lib::group_to_multiset_ensures,
        vstd::multiset::group_multiset_axioms,
    };

    reveal(Seq::filter);
    if s.len() > 0 {
        let init = s.drop_last();
        lemma_filter_of_multiset(init, keep);
        assert(s =~= init.push(s.last()));
    } else {
        assert(s.filter(keep) =~= s);
        assert(s.to_multiset().len() == 0);
    }
}

/// A filter that keeps nothing from `k` on keeps at most `k`, and one that
/// keeps everything below `k` keeps at least `k`.
proof fn lemma_filter_split<T>(s: Seq<T>, keep: spec_fn(T) -> bool, k: int)
    requires
        0 <= k <= s.len(),
    ensures
        (forall|i: int| k <= i < s.len() ==> !keep(#[trigger] s[i])) ==> s.filter(keep).len() <= k,
        (forall|i: int| 0 <= i < k ==> keep(#[trigger] s[i])) ==> s.filter(keep).len() >= k,
    decreases s.len(),
{
    reveal(Seq::filter);
    if s.len() > 0 {
        let init = s.drop_last();
        let at = if k < s.len() {
            k
        } else {
            k - 1
        };
        lemma_filter_split(init, keep, at);
        if forall|i: int| k <= i < s.len() ==> !keep(#[trigger] s[i]) {
            assert forall|i: int| at <= i < init.len() implies !keep(#[trigger] init[i]) by {
                assert(init[i] == s[i]);
            }
            if k < s.len() {
                assert(!keep(s[s.len() - 1]));
            }
        }
        if forall|i: int| 0 <= i < k ==> keep(#[trigger] s[i]) {
            assert forall|i: int| 0 <= i < at implies keep(#[trigger] init[i]) by {
                assert(init[i] == s[i]);
            }
            if k == s.len() {
                assert(keep(s[s.len() - 1]));
            }
        }
    }
}

/// The median is one of the values, and stands in their middle: at most half of
/// them lie below it, and more than half do not lie above it.
pub proof fn law_median_stands_in_the_middle(values: Seq<u32>)
    requires
        values.len() >= 1,
    ensures
        values.contains(median(values)),
        values.filter(|x: u32| x < median(values)).len() <= values.len() as int / 2,
        values.filter(|x: u32| x <= median(values)).len() > values.len() as int / 2,
{
    broadcast use vstd::seq_lib::group_to_multiset_ensures;

    assert(total_ordering(count_le()));
    values.lemma_sort_by_ensures(count_le());
    let sorted = values.sort_by(count_le());
    assert(sorted.to_multiset().len() == values.to_multiset().len());
    let half = values.len() as int / 2;
    let m = median(values);
    assert(sorted[half] == m);
    assert(sorted.contains(m));
    assert(values.to_multiset().count(m) > 0);
    let under = |x: u32| x < m;
    let up_to = |x: u32| x <= m;
    assert forall|i: int| half <= i < sorted.len() implies !under(#[trigger] sorted[i]) by {
        assert(count_le()(sorted[half], sorted[i]));
    }
    assert forall|i: int| 0 <= i < half + 1 implies up_to(#[trigger] sorted[i]) by {
        assert(count_le()(sorted[i], sorted[half]));
    }
    lemma_filter_split(sorted, under, half);
    lemma_filter_split(sorted, up_to, half + 1);
    lemma_filter_of_multiset(sorted, under);
    lemma_filter_of_multiset(values, under);
    lemma_filter_of_multiset(sorted, up_to);
    lemma_filter_of_multiset(values, up_to);
    assert(values.filter(under).to_multiset().len() == sorted.filter(under).to_multiset().len());
    assert(values.filter(up_to).to_multiset().len() == sorted.filter(up_to).to_multiset().len());
}

/// The median does not depend on the order in which the values come.
pub proof fn law_median_ignores_the_order(x: Seq<u32>, y: Seq<u32>)
    requires
        x.to_multiset() == y.to_multiset(),
    ensures
        median(x) == median(y),
{
    broadcast use vstd::seq_lib::group_to_multiset_ensures;

    assert(total_ordering(count_le()));
    x.lemma_sort_by_ensures(count_le());
    y.lemma_sort_by_ensures(count_le());
    vstd::seq_lib::lemma_sorted_unique(x.sort_by(count_le()), y.sort_by(count_le()), count_le());
    assert(x.to_multiset().len() == x.len() && y.to_multiset().len() == y.len());
}

/// Histories that agree on one side have the same values there.
proof fn lemma_same_side(
    h: Seq<(Double, u32)>,
    g: Seq<(Double, u32)>,
    keep: spec_fn((Double, u32)) -> bool,
    value: spec_fn((Double, u32)) -> Double,
)
    requires
        h.len() == g.len(),
        forall|i: int| 0 <= i < h.len() ==> keep(#[trigger] h[i]) == keep(g[i]),
        forall|i: int| 0 <= i < h.len() && keep(#[trigger] h[i]) ==> value(h[i]) == value(g[i]),
    ensures
        h.filter(keep).map_values(value) == g.filter(keep).map_values(value),
    decreases h.len(),
{
    reveal(Seq::filter);
    if h.len() > 0 {
        let (p, q) = (h.drop_last(), g.drop_last());
        assert forall|i: int| 0 <= i < p.len() implies keep(#[trigger] p[i]) == keep(q[i]) by {
            assert(p[i] == h[i] && q[i] == g[i]);
        }
        assert forall|i: int| 0 <= i < p.len() && keep(#[trigger] p[i]) implies value(p[i])
            == value(q[i]) by {
            assert(p[i] == h[i] && q[i] == g[i]);
        }
        lemma_same_side(p, q, keep, value);
        assert(keep(h[h.len() - 1]) == keep(g[g.len() - 1]));
        let (x, y) = (h.filter(keep).map_values(value), g.filter(keep).map_values(value));
        let (v, w) = (p.filter(keep).map_values(value), q.filter(keep).map_values(value));
        if keep(h.last()) {
            assert(x =~= v.push(value(h.last())));
            assert(y =~= w.push(value(g.last())));
        }
    } else {
        assert(h =~= g);
    }
}

/// A reading is ranked among the similarly busy buckets only: readings on the
/// other side of the median can be anything.
pub proof fn law_only_similarly_busy_readings_count<A: Fn(Op) -> Double>(
    a: A,
    s: IntensityState,
    t: IntensityState,
    vpin: Double,
    trades: u32,
)
    requires
        s.window == t.window,
        s.window >= 1,
        s.history.len() == t.history.len(),
        forall|i: int| 0 <= i < s.history.len() ==> (#[trigger] s.history[i]).1 == t.history[i].1,
        ({
            let m = median(intensities(intensity_after(s, vpin, trades).history));
            forall|i: int|
                0 <= i < s.history.len() && is_busy((#[trigger] s.history[i]).1, m) == is_busy(
                    trades,
                    m,
                ) ==> s.history[i].0 == t.history[i].0
        }),
    ensures
        adjusted_rank(a, s, vpin, trades) == adjusted_rank(a, t, vpin, trades),
{
    let h = intensity_after(s, vpin, trades).history;
    let g = intensity_after(t, vpin, trades).history;
    let m = median(intensities(h));
    let from: int = if s.history.len() == s.window {
        1
    } else {
        0
    };
    assert(h.len() == g.len());
    assert forall|i: int| 0 <= i < h.len() implies (#[trigger] h[i]).1 == g[i].1 && (is_busy(
        h[i].1,
        m,
    ) == is_busy(trades, m) ==> h[i].0 == g[i].0) by {
        if i < h.len() - 1 {
            assert(h[i] == s.history[i + from] && g[i] == t.history[i + from]);
        }
    }
    assert(intensities(h) =~= intensities(g));
    lemma_same_side(
        h,
        g,
        |p: (Double, u32)| is_busy(p.1, m) == is_busy(trades, m),
        |p: (Double, u32)| p.0,
    );
}

} // verus!
