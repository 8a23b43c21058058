//! The sweep over every combination of parameters, and the comparison of each
//! combination's accuracy with the best one's.

use crate::calibrate::{
    bvc_accuracy_stats, bvc_at, bvc_outcome, bvc_result, calibrate_one, p_value, point_config,
    point_outcome, readings, room_throughout, stats_of, two_proportion_p_value, BvcStats, Stats,
    Trade,
};
use crate::double::{is_unit, total_at_most, Double, Op};
use crate::error::VpinError;
use crate::vpin::{config_error, VpinEngineConfig};
use vstd::prelude::*;

verus! {

/// One point of the sweep.
#[derive(Clone, Copy, Debug, PartialEq, Eq)]
pub struct SweepResult {
    pub bucket_volume: Double,
    pub sigma_window: usize,
    pub vpin_window: usize,
    pub stats: Result<Stats, VpinError>,
}

/// One point of the sweep, before it is compared with the best one.
pub open spec fn sweep_point<A: Fn(Op) -> Double>(
    a: A,
    trades: Seq<Trade>,
    bucket_volume: Double,
    sigma_window: usize,
    vpin_window: usize,
    cdf_window: Option<usize>,
) -> SweepResult {
    SweepResult {
        bucket_volume,
        sigma_window,
        vpin_window,
        stats: match bvc_outcome(a, trades, bucket_volume, sigma_window) {
            Err(e) => Err(e),
            Ok(bvc) => point_outcome(
                a,
                trades,
                point_config(bucket_volume, sigma_window, vpin_window, cdf_window),
                bvc,
            ),
        },
    }
}

/// The points of every combination, the averaging window varying fastest and
/// the bucket volume slowest.
pub open spec fn sweep_grid<A: Fn(Op) -> Double>(
    a: A,
    trades: Seq<Trade>,
    bucket_volumes: Seq<Double>,
    sigma_windows: Seq<usize>,
    vpin_windows: Seq<usize>,
    cdf_window: Option<usize>,
) -> Seq<SweepResult>
    decreases bucket_volumes.len(),
{
    if bucket_volumes.len() == 0 {
        Seq::empty()
    } else {
        sweep_grid(
            a,
            trades,
            bucket_volumes.drop_last(),
            sigma_windows,
            vpin_windows,
            cdf_window,
        ) + sweep_slab(
            a,
            trades,
            bucket_volumes.last(),
            sigma_windows,
            vpin_windows,
            cdf_window,
        )
    }
}

/// The points of one bucket volume.
pub open spec fn sweep_slab<A: Fn(Op) -> Double>(
    a: A,
    trades: Seq<Trade>,
    bucket_volume: Double,
    sigma_windows: Seq<usize>,
    vpin_windows: Seq<usize>,
    cdf_window: Option<usize>,
) -> Seq<SweepResult>
    decreases sigma_windows.len(),
{
    if sigma_windows.len() == 0 {
        Seq::empty()
    } else {
        sweep_slab(
            a,
            trades,
            bucket_volume,
            sigma_windows.drop_last(),
            vpin_windows,
            cdf_window,
        ) + sweep_row(
            a,
            trades,
            bucket_volume,
            sigma_windows.last(),
            vpin_windows,
            cdf_window,
        )
    }
}

/// The points of one bucket volume and one sigma window.
pub open spec fn sweep_row<A: Fn(Op) -> Double>(
    a: A,
    trades: Seq<Trade>,
    bucket_volume: Double,
    sigma_window: usize,
    vpin_windows: Seq<usize>,
    cdf_window: Option<usize>,
) -> Seq<SweepResult> {
    vpin_windows.map_values(
        |w: usize| sweep_point(a, trades, bucket_volume, sigma_window, w, cdf_window),
    )
}

/// The accuracy of a point that has one.
pub open spec fn known_accuracy(r: SweepResult) -> Option<Double> {
    match r.stats {
        Ok(s) if !s.bvc_accuracy.nan() => Some(s.bvc_accuracy),
        _ => None,
    }
}

/// Where the best accuracy stands, the last one among equals.
pub open spec fn best_index(rs: Seq<SweepResult>) -> Option<int>
    decreases rs.len(),
{
    if rs.len() == 0 {
        None
    } else {
        match (best_index(rs.drop_last()), known_accuracy(rs.last())) {
            (None, None) => None,
            (None, Some(_)) => Some(rs.len() - 1),
            (Some(b), None) => Some(b),
            (Some(b), Some(x)) => if known_accuracy(rs[b])->0.total_place() <= x.total_place() {
                Some(rs.len() - 1)
            } else {
                Some(b)
            },
        }
    }
}

/// The best accuracy is one of the accuracies, none is above it, and none
/// behind it reaches it.
pub proof fn lemma_best_index(rs: Seq<SweepResult>)
    ensures
        match best_index(rs) {
            None => forall|i: int|
                0 <= i < rs.len() ==> known_accuracy(#[trigger] rs[i]) is None,
            Some(b) => {
                &&& 0 <= b < rs.len()
                &&& known_accuracy(rs[b]) is Some
                &&& forall|i: int|
                    0 <= i < rs.len() && known_accuracy(#[trigger] rs[i]) is Some
                        ==> known_accuracy(rs[i])->0.total_place() <= known_accuracy(
                        rs[b],
                    )->0.total_place()
                &&& forall|i: int|
                    b < i < rs.len() && known_accuracy(#[trigger] rs[i]) is Some
                        ==> known_accuracy(rs[i])->0.total_place() < known_accuracy(
                        rs[b],
                    )->0.total_place()
            },
        },
    decreases rs.len(),
{
    if rs.len() > 0 {
        let init = rs.drop_last();
        lemma_best_index(init);
        assert forall|i: int| 0 <= i < init.len() implies #[trigger] rs[i] == init[i] by {}
    }
}

/// A point compared with the best one.
pub open spec fn compared_with<A: Fn(Op) -> Double>(
    a: A,
    r: SweepResult,
    best: Stats,
) -> SweepResult {
    match r.stats {
        Err(_) => r,
        Ok(s) => SweepResult {
            stats: Ok(
                Stats {
                    bvc_accuracy_p_value: p_value(
                        a,
                        s.bvc_accuracy,
                        s.bvc_compared,
                        best.bvc_accuracy,
                        best.bvc_compared,
                    ),
                    ..s
                },
            ),
            ..r
        },
    }
}

/// All points compared with the best one, but for that one itself.
pub open spec fn with_p_values<A: Fn(Op) -> Double>(a: A, rs: Seq<SweepResult>) -> Seq<
    SweepResult,
> {
    match best_index(rs) {
        None => rs,
        Some(b) => Seq::new(
            rs.len(),
            |i: int|
                if i == b {
                    rs[i]
                } else {
                    compared_with(a, rs[i], rs[b].stats->Ok_0)
                },
        ),
    }
}

/// Compares all points with the best one.
fn compare_with_best<A: Fn(Op) -> Double>(arith: &A, rs: Vec<SweepResult>) -> (r: Vec<SweepResult>)
    requires
        is_unit(*arith),
    ensures
        r@ == with_p_values(*arith, rs@),
{
    let mut best: Option<(usize, Stats, Double)> = None;
    let mut i: usize = 0;
    assert(rs@.take(0) =~= Seq::empty());
    while i < rs.len()
        invariant
            i <= rs@.len(),
            match best {
                None => best_index(rs@.take(i as int)) is None,
                Some((b, s, x)) => {
                    &&& best_index(rs@.take(i as int)) == Some(b as int)
                    &&& b < i
                    &&& rs@[b as int].stats == Ok::<Stats, VpinError>(s)
                    &&& known_accuracy(rs@[b as int]) == Some(x)
                },
            },
        decreases rs.len() - i,
    {
        proof {
            assert(rs@.take(i + 1).drop_last() =~= rs@.take(i as int));
            assert(rs@.take(i + 1).last() == rs@[i as int]);
            if let Some((b, s, x)) = best {
                assert(rs@.take(i + 1)[b as int] == rs@[b as int]);
            }
        }
        match rs[i].stats {
            Err(_) => {},
            Ok(s) => {
                if !s.bvc_accuracy.is_nan() {
                    let replaces: bool = match best {
                        None => true,
                        Some((_, _, x)) => total_at_most(x, s.bvc_accuracy),
                    };
                    if replaces {
                        best = Some((i, s, s.bvc_accuracy));
                    }
                }
            },
        }
        i += 1;
    }
    assert(rs@.take(i as int) =~= rs@);
    match best {
        None => rs,
        Some((b, top, _)) => {
            let mut out: Vec<SweepResult> = Vec::new();
            let mut k: usize = 0;
            while k < rs.len()
                invariant
                    k <= rs@.len(),
                    is_unit(*arith),
                    b < rs@.len(),
                    best_index(rs@) == Some(b as int),
                    rs@[b as int].stats == Ok::<Stats, VpinError>(top),
                    out@ =~= with_p_values(*arith, rs@).take(k as int),
                decreases rs.len() - k,
            {
                let mut point: SweepResult = rs[k];
                if k != b {
                    if let Ok(s) = point.stats {
                        let p: Double = two_proportion_p_value(
                            arith,
                            s.bvc_accuracy,
                            s.bvc_compared,
                            top.bvc_accuracy,
                            top.bvc_compared,
                        );
                        point.stats = Ok(Stats { bvc_accuracy_p_value: p, ..s });
                    }
                }
                out.push(point);
                k += 1;
            }
            assert(out@ =~= with_p_values(*arith, rs@));
            out
        },
    }
}

/// Runs every combination, reusing one comparison of the classification per
/// bucket volume and sigma window, and compares each accuracy with the best.
pub fn run_sweep<A: Fn(Op) -> Double>(
    arith: &A,
    trades: &Vec<Trade>,
    bucket_volumes: &Vec<Double>,
    sigma_windows: &Vec<usize>,
    vpin_windows: &Vec<usize>,
    cdf_window: Option<usize>,
) -> (r: Vec<SweepResult>)
    requires
        is_unit(*arith),
        forall|i: int|
            0 <= i < bucket_volumes@.len() && (#[trigger] bucket_volumes@[i]).finite()
                && bucket_volumes@[i].positive() ==> room_throughout(
                *arith,
                bucket_volumes@[i],
                trades@,
            ),
    ensures
        r@ == with_p_values(
            *arith,
            sweep_grid(
                *arith,
                trades@,
                bucket_volumes@,
                sigma_windows@,
                vpin_windows@,
                cdf_window,
            ),
        ),
{
    let mut out: Vec<SweepResult> = Vec::new();
    let mut i: usize = 0;
    assert(bucket_volumes@.take(0) =~= Seq::empty());
    while i < bucket_volumes.len()
        invariant
            i <= bucket_volumes@.len(),
            is_unit(*arith),
            forall|i: int|
                0 <= i < bucket_volumes@.len() && (#[trigger] bucket_volumes@[i]).finite()
                    && bucket_volumes@[i].positive() ==> room_throughout(
                    *arith,
                    bucket_volumes@[i],
                    trades@,
                ),
            out@ == sweep_grid(
                *arith,
                trades@,
                bucket_volumes@.take(i as int),
                sigma_windows@,
                vpin_windows@,
                cdf_window,
            ),
        decreases bucket_volumes.len() - i,
    {
        let bv: Double = bucket_volumes[i];
        let ghost grid = out@;
        assert(bucket_volumes@.take(i + 1).drop_last() =~= bucket_volumes@.take(i as int));
        let mut j: usize = 0;
        assert(sigma_windows@.take(0) =~= Seq::empty());
        assert(out@ =~= grid + Seq::<SweepResult>::empty());
        while j < sigma_windows.len()
            invariant
                j <= sigma_windows@.len(),
                is_unit(*arith),
                bv.finite() && bv.positive() ==> room_throughout(*arith, bv, trades@),
                out@ == grid + sweep_slab(
                    *arith,
                    trades@,
                    bv,
                    sigma_windows@.take(j as int),
                    vpin_windows@,
                    cdf_window,
                ),
            decreases sigma_windows.len() - j,
        {
            let sw: usize = sigma_windows[j];
            let bvc: Result<BvcStats, VpinError> = bvc_accuracy_stats(arith, trades, bv, sw);
            let ghost slab = out@;
            assert(sigma_windows@.take(j + 1).drop_last() =~= sigma_windows@.take(j as int));
            let ghost row = sweep_row(*arith, trades@, bv, sw, vpin_windows@, cdf_window);
            let mut k: usize = 0;
            assert(out@ =~= slab + row.take(0));
            while k < vpin_windows.len()
                invariant
                    k <= vpin_windows@.len(),
                    is_unit(*arith),
                    bv.finite() && bv.positive() ==> room_throughout(*arith, bv, trades@),
                    bvc == bvc_outcome(*arith, trades@, bv, sw),
                    row == sweep_row(*arith, trades@, bv, sw, vpin_windows@, cdf_window),
                    out@ == slab + row.take(k as int),
                decreases vpin_windows.len() - k,
            {
                let vw: usize = vpin_windows[k];
                let stats: Result<Stats, VpinError> = match bvc {
                    Ok(b) => calibrate_one(arith, trades, bv, sw, vw, cdf_window, b),
                    Err(e) => Err(e),
                };
                out.push(
                    SweepResult { bucket_volume: bv, sigma_window: sw, vpin_window: vw, stats },
                );
                assert(out@ =~= slab + row.take(k + 1));
                k += 1;
            }
            assert(row.take(k as int) =~= row);
            j += 1;
            assert(out@ =~= grid + sweep_slab(
                *arith,
                trades@,
                bv,
                sigma_windows@.take(j as int),
                vpin_windows@,
                cdf_window,
            ));
        }
        assert(sigma_windows@.take(j as int) =~= sigma_windows@);
        i += 1;
    }
    assert(bucket_volumes@.take(i as int) =~= bucket_volumes@);
    compare_with_best(arith, out)
}

/// The slab's point for the `j`-th sigma window and the `k`-th averaging
/// window stands at its own place.
proof fn lemma_slab<A: Fn(Op) -> Double>(
    a: A,
    trades: Seq<Trade>,
    bucket_volume: Double,
    sigma_windows: Seq<usize>,
    vpin_windows: Seq<usize>,
    cdf_window: Option<usize>,
    j: int,
    k: int,
)
    ensures
        ({
            let slab = sweep_slab(
                a,
                trades,
                bucket_volume,
                sigma_windows,
                vpin_windows,
                cdf_window,
            );
            let nv = vpin_windows.len() as int;
            &&& slab.len() == sigma_windows.len() * nv
            &&& 0 <= j < sigma_windows.len() && 0 <= k < nv ==> {
                &&& 0 <= j * nv + k < slab.len()
                &&& slab[j * nv + k] == sweep_point(
                    a,
                    trades,
                    bucket_volume,
                    sigma_windows[j],
                    vpin_windows[k],
                    cdf_window,
                )
            }
        }),
    decreases sigma_windows.len(),
{
    let nv = vpin_windows.len() as int;
    if sigma_windows.len() > 0 {
        let ns = sigma_windows.len() - 1;
        lemma_slab(
            a,
            trades,
            bucket_volume,
            sigma_windows.drop_last(),
            vpin_windows,
            cdf_window,
            j,
            k,
        );
        assert((ns + 1) * nv == ns * nv + nv) by (nonlinear_arith);
        if 0 <= j < ns + 1 && 0 <= k < nv {
            assert(0 <= j * nv && j * nv + nv <= (ns + 1) * nv) by (nonlinear_arith)
                requires
                    0 <= j < ns + 1,
                    0 <= nv,
            ;
        }
    } else {
        assert(0 * nv == 0) by (nonlinear_arith);
    }
}

/// The sweep covers the full cartesian product: every combination stands at
/// its own place, and there is nothing else.
pub proof fn law_sweep_covers_the_product<A: Fn(Op) -> Double>(
    a: A,
    trades: Seq<Trade>,
    bucket_volumes: Seq<Double>,
    sigma_windows: Seq<usize>,
    vpin_windows: Seq<usize>,
    cdf_window: Option<usize>,
    i: int,
    j: int,
    k: int,
)
    ensures
        ({
            let grid = sweep_grid(
                a,
                trades,
                bucket_volumes,
                sigma_windows,
                vpin_windows,
                cdf_window,
            );
            let n = sigma_windows.len() * vpin_windows.len();
            let at = i * n + (j * vpin_windows.len() + k);
            &&& grid.len() == bucket_volumes.len() * n
            &&& with_p_values(a, grid).len() == grid.len()
            &&& 0 <= i < bucket_volumes.len() && 0 <= j < sigma_windows.len() && 0 <= k
                < vpin_windows.len() ==> {
                &&& 0 <= at < grid.len()
                &&& grid[at] == sweep_point(
                    a,
                    trades,
                    bucket_volumes[i],
                    sigma_windows[j],
                    vpin_windows[k],
                    cdf_window,
                )
            }
        }),
    decreases bucket_volumes.len(),
{
    let (ns, nv) = (sigma_windows.len() as int, vpin_windows.len() as int);
    let n = ns * nv;
    if bucket_volumes.len() > 0 {
        let nb = bucket_volumes.len() - 1;
        law_sweep_covers_the_product(
            a,
            trades,
            bucket_volumes.drop_last(),
            sigma_windows,
            vpin_windows,
            cdf_window,
            i,
            j,
            k,
        );
        lemma_slab(
            a,
            trades,
            bucket_volumes.last(),
            sigma_windows,
            vpin_windows,
            cdf_window,
            j,
            k,
        );
        assert((nb + 1) * n == nb * n + n) by (nonlinear_arith);
        if 0 <= i < nb + 1 && 0 <= j < ns && 0 <= k < nv {
            assert(0 <= i * n && i * n + n <= (nb + 1) * n) by (nonlinear_arith)
                requires
                    0 <= i < nb + 1,
                    0 <= n,
            ;
        }
    } else {
        assert(0 * n == 0) by (nonlinear_arith);
    }
}

/// The accuracy of the classification does not depend on the averaging window:
/// two points that differ in nothing else report the same comparison.
pub proof fn law_accuracy_ignores_the_vpin_window<A: Fn(Op) -> Double>(
    a: A,
    trades: Seq<Trade>,
    bucket_volume: Double,
    sigma_window: usize,
    w1: usize,
    w2: usize,
    cdf_window: Option<usize>,
)
    ensures
        ({
            let r1 = sweep_point(a, trades, bucket_volume, sigma_window, w1, cdf_window).stats;
            let r2 = sweep_point(a, trades, bucket_volume, sigma_window, w2, cdf_window).stats;
            (r1 is Ok && r2 is Ok) ==> {
                &&& r1->Ok_0.bvc_accuracy == r2->Ok_0.bvc_accuracy
                &&& r1->Ok_0.bvc_mean_abs_error == r2->Ok_0.bvc_mean_abs_error
                &&& r1->Ok_0.bvc_compared == r2->Ok_0.bvc_compared
            }
        }),
{
}

pub open spec fn has_no_p_value(r: SweepResult) -> bool {
    r.stats matches Ok(s) ==> s.bvc_accuracy_p_value.nan()
}

proof fn lemma_fresh_slab<A: Fn(Op) -> Double>(
    a: A,
    trades: Seq<Trade>,
    bucket_volume: Double,
    sigma_windows: Seq<usize>,
    vpin_windows: Seq<usize>,
    cdf_window: Option<usize>,
    at: int,
)
    requires
        0 <= at < sweep_slab(
            a,
            trades,
            bucket_volume,
            sigma_windows,
            vpin_windows,
            cdf_window,
        ).len(),
    ensures
        has_no_p_value(
            sweep_slab(a, trades, bucket_volume, sigma_windows, vpin_windows, cdf_window)[at],
        ),
    decreases sigma_windows.len(),
{
    let init = sigma_windows.drop_last();
    let before = sweep_slab(a, trades, bucket_volume, init, vpin_windows, cdf_window);
    if at < before.len() {
        lemma_fresh_slab(a, trades, bucket_volume, init, vpin_windows, cdf_window, at);
    }
}

/// Before the comparison with the best no point has a p-value.
proof fn lemma_fresh_grid<A: Fn(Op) -> Double>(
    a: A,
    trades: Seq<Trade>,
    bucket_volumes: Seq<Double>,
    sigma_windows: Seq<usize>,
    vpin_windows: Seq<usize>,
    cdf_window: Option<usize>,
    at: int,
)
    requires
        0 <= at < sweep_grid(
            a,
            trades,
            bucket_volumes,
            sigma_windows,
            vpin_windows,
            cdf_window,
        ).len(),
    ensures
        has_no_p_value(
            sweep_grid(a, trades, bucket_volumes, sigma_windows, vpin_windows, cdf_window)[at],
        ),
    decreases bucket_volumes.len(),
{
    let init = bucket_volumes.drop_last();
    let before = sweep_grid(a, trades, init, sigma_windows, vpin_windows, cdf_window);
    if at < before.len() {
        lemma_fresh_grid(a, trades, init, sigma_windows, vpin_windows, cdf_window, at);
    } else {
        lemma_fresh_slab(
            a,
            trades,
            bucket_volumes.last(),
            sigma_windows,
            vpin_windows,
            cdf_window,
            at - before.len(),
        );
    }
}

/// The best point of a sweep is left as it was, without a p-value; every other
/// point that has a description gets one against the best; and nothing else of
/// any point changes.
pub proof fn law_the_best_has_no_p_value<A: Fn(Op) -> Double>(
    a: A,
    trades: Seq<Trade>,
    bucket_volumes: Seq<Double>,
    sigma_windows: Seq<usize>,
    vpin_windows: Seq<usize>,
    cdf_window: Option<usize>,
)
    ensures
        ({
            let grid = sweep_grid(
                a,
                trades,
                bucket_volumes,
                sigma_windows,
                vpin_windows,
                cdf_window,
            );
            let swept = with_p_values(a, grid);
            &&& swept.len() == grid.len()
            &&& best_index(grid) matches Some(b) ==> {
                &&& 0 <= b < grid.len()
                &&& swept[b] == grid[b]
                &&& swept[b].stats matches Ok(s) && s.bvc_accuracy_p_value.nan()
                &&& forall|i: int|
                    0 <= i < grid.len() && i != b ==> #[trigger] swept[i] == compared_with(
                        a,
                        grid[i],
                        grid[b].stats->Ok_0,
                    )
            }
            &&& best_index(grid) is None ==> swept == grid
        }),
{
    let grid = sweep_grid(a, trades, bucket_volumes, sigma_windows, vpin_windows, cdf_window);
    lemma_best_index(grid);
    if let Some(b) = best_index(grid) {
        lemma_fresh_grid(
            a,
            trades,
            bucket_volumes,
            sigma_windows,
            vpin_windows,
            cdf_window,
            b,
        );
    }
}

/// Every point is compared with the best one. Among the points that have an
/// accuracy, the best one's is no lower than any, and higher than all that come
/// after it. It is left as it is, and so is a refused point; every other point
/// has the p-value of its accuracy and its count against the best one's, and is
/// otherwise as it was. Where no point has an accuracy nothing is compared.
pub proof fn law_points_are_compared_with_the_best<A: Fn(Op) -> Double>(a: A, rs: Seq<SweepResult>)
    ensures
        with_p_values(a, rs).len() == rs.len(),
        ({
            ||| {
                &&& with_p_values(a, rs) == rs
                &&& forall|i: int|
                    0 <= i < rs.len() ==> (#[trigger] rs[i]).stats is Err
                        || rs[i].stats->Ok_0.bvc_accuracy.nan()
            }
            ||| exists|b: int|
                {
                    let top = (#[trigger] rs[b]).stats->Ok_0;
                    &&& 0 <= b < rs.len()
                    &&& rs[b].stats is Ok
                    &&& !top.bvc_accuracy.nan()
                    &&& with_p_values(a, rs)[b] == rs[b]
                    &&& forall|i: int|
                        0 <= i < rs.len() && (#[trigger] rs[i]).stats is Ok
                            && !rs[i].stats->Ok_0.bvc_accuracy.nan() ==> {
                            let x = rs[i].stats->Ok_0.bvc_accuracy;
                            &&& x.at_most(top.bvc_accuracy)
                            &&& i > b ==> x.total_place() < top.bvc_accuracy.total_place()
                        }
                    &&& forall|i: int|
                        0 <= i < rs.len() && i != b ==> {
                            let r = #[trigger] with_p_values(a, rs)[i];
                            &&& r.bucket_volume == rs[i].bucket_volume
                            &&& r.sigma_window == rs[i].sigma_window
                            &&& r.vpin_window == rs[i].vpin_window
                            &&& match rs[i].stats {
                                Err(e) => r.stats == Err::<Stats, VpinError>(e),
                                Ok(s) => {
                                    let p = p_value(
                                        a,
                                        s.bvc_accuracy,
                                        s.bvc_compared,
                                        top.bvc_accuracy,
                                        top.bvc_compared,
                                    );
                                    r.stats == Ok::<Stats, VpinError>(
                                        Stats { bvc_accuracy_p_value: p, ..s },
                                    )
                                },
                            }
                        }
                }
        }),
{
    lemma_best_index(rs);
    match best_index(rs) {
        None => {
            assert forall|i: int| 0 <= i < rs.len() implies (#[trigger] rs[i]).stats is Err
                || rs[i].stats->Ok_0.bvc_accuracy.nan() by {
                assert(known_accuracy(rs[i]) is None);
            }
        },
        Some(b) => {
            let top = rs[b].stats->Ok_0;
            assert(known_accuracy(rs[b]) == Some(top.bvc_accuracy));
            assert forall|i: int|
                0 <= i < rs.len() && (#[trigger] rs[i]).stats is Ok
                    && !rs[i].stats->Ok_0.bvc_accuracy.nan() implies {
                let x = rs[i].stats->Ok_0.bvc_accuracy;
                &&& x.at_most(top.bvc_accuracy)
                &&& i > b ==> x.total_place() < top.bvc_accuracy.total_place()
            } by {
                assert(known_accuracy(rs[i]) is Some);
            }
        },
    }
}

/// A point of the sweep is measured on the tape with its own parameters: where
/// an engine takes them, its figures describe the readings of that engine and the
/// comparison of the classification, and where none does it has the engine's
/// reason.
pub proof fn law_a_point_is_measured_on_the_tape<A: Fn(Op) -> Double>(
    a: A,
    trades: Seq<Trade>,
    bucket_volume: Double,
    sigma_window: usize,
    vpin_window: usize,
    cdf_window: Option<usize>,
)
    ensures
        ({
            let point = sweep_point(
                a,
                trades,
                bucket_volume,
                sigma_window,
                vpin_window,
                cdf_window,
            );
            let cfg = VpinEngineConfig {
                bucket_volume,
                sigma_window,
                vpin_window,
                cdf_window,
                confidence_interval: None,
            };
            let comparison = bvc_result(a, bvc_at(a, bucket_volume, sigma_window as nat, trades));
            &&& point.bucket_volume == bucket_volume
            &&& point.sigma_window == sigma_window
            &&& point.vpin_window == vpin_window
            &&& match point.stats {
                Ok(s) => {
                    &&& config_error(cfg) is None
                    &&& s == stats_of(a, cfg, readings(a, cfg, trades), comparison)
                },
                Err(e) => {
                    &&& config_error(cfg) is Some
                    &&& e == (if !(bucket_volume.finite() && bucket_volume.positive()) {
                        VpinError::InvalidBucketVolume(bucket_volume)
                    } else if sigma_window < 2 {
                        VpinError::InvalidWindow { got: sigma_window, min: 2 }
                    } else {
                        config_error(cfg)->0
                    })
                },
            }
        }),
{
}

} // verus!
