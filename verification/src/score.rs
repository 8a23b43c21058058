//! What a bucket holds, what a score is made of and what a trade does to an
//! engine.

use crate::bootstrap::{firsts, interval, ratio, seconds};
use crate::bucket::{
    bucket_after, bucket_closed, bucket_has_room, bucketer_through, filled_volume, none_closes,
    BucketState,
};
use crate::deviation::{in_quanta, lemma_sum_up, lemma_summands, total};
use crate::double::{eval, sum, Double, Op, ZERO};
use crate::ieee::{
    lemma_at_least, lemma_constants, lemma_orders, lemma_quanta_order, nonnegative, quanta, rounded,
    rounds, unity, zero, EXACT,
};
use crate::precision::{
    lemma_added, lemma_chain, lemma_chain_down, lemma_off_or_least, lemma_relative, lemma_times,
};
use crate::rng::state_after;
use crate::vpin::{
    cdf_after, cdf_rank, engine_after, imbalance, reading_at, sigma_after, EngineState,
};
use vstd::arithmetic::mul::{
    lemma_mul_inequality, lemma_mul_is_commutative, lemma_mul_nonnegative,
};
use vstd::prelude::*;

verus! {

/// A score is the total of the imbalances over the total of the volumes: with
/// `n` pairs, the score times the total volume is the total imbalance to within
/// `2 n + 2` units of the precision on either side and one quantum of the score.
pub proof fn law_score_is_total_imbalance_over_total_volume<A: Fn(Op) -> Double>(
    a: A,
    pairs: Seq<(Double, Double)>,
)
    requires
        rounds(a),
        0 < pairs.len(),
        16 * pairs.len() <= EXACT,
        forall|i: int|
            0 <= i < pairs.len() ==> nonnegative((#[trigger] pairs[i]).0) && pairs[i].1.positive(),
        sum(a, pairs.map_values(|p: (Double, Double)| p.0)).finite(),
        sum(a, pairs.map_values(|p: (Double, Double)| p.1)).finite(),
        ratio(a, pairs).finite(),
    ensures
        ({
            let score = quanta(ratio(a, pairs));
            let imbalances = total(pairs.map_values(|p: (Double, Double)| quanta(p.0)));
            let volumes = total(pairs.map_values(|p: (Double, Double)| quanta(p.1)));
            let off = 2 * pairs.len() + 2;
            &&& volumes > 0
            &&& (EXACT - off) * (score * volumes) <= (EXACT + off) * (imbalances * unity()
                + volumes)
            &&& (EXACT - off) * (imbalances * unity()) <= (EXACT + off) * (score * volumes
                + volumes)
        }),
{
    lemma_constants();
    let (xs, ys) = (firsts(pairs), seconds(pairs));
    assert(xs =~= pairs.map_values(|p: (Double, Double)| p.0));
    assert(ys =~= pairs.map_values(|p: (Double, Double)| p.1));
    assert(in_quanta(xs) =~= pairs.map_values(|p: (Double, Double)| quanta(p.0)));
    assert(in_quanta(ys) =~= pairs.map_values(|p: (Double, Double)| quanta(p.1)));
    assert forall|i: int| 0 <= i < xs.len() implies nonnegative(#[trigger] xs[i]) by {
        assert(nonnegative(pairs[i].0));
    }
    assert forall|i: int| 0 <= i < ys.len() implies nonnegative(#[trigger] ys[i]) by {
        assert(pairs[i].1.positive());
    }
    lemma_sum_up(a, xs);
    lemma_sum_up(a, ys);
    let r = ratio(a, pairs);
    let (s, t, v, u, p) = (
        quanta(sum(a, xs)),
        quanta(sum(a, ys)),
        quanta(r),
        unity(),
        EXACT as int,
    );
    let (i, w, n) = (total(in_quanta(xs)), total(in_quanta(ys)), pairs.len() as int);
    lemma_positive_sum(a, ys);
    lemma_quanta_order(sum(a, ys), zero());
    assert(w > 0) by {
        if w <= 0 {
            assert(w == 0);
            assert((p + 2 * n) * w == 0);
            lemma_mul_nonnegative(p, t);
            assert(t == 0) by (nonlinear_arith)
                requires
                    p * t <= 0,
                    p > 0,
                    t >= 0,
            ;
        }
    }
    // The quotient.
    lemma_mul_nonnegative(s, u);
    lemma_mul_nonnegative(i, u);
    assert(rounded(r, s * u, t));
    lemma_relative(r, s * u, t);
    lemma_off_or_least(p, v * t, s * u, t);
    assert(v >= 0) by {
        lemma_at_least(r, zero(), s * u, t);
        lemma_quanta_order(zero(), r);
    }
    lemma_mul_nonnegative(v, t);
    lemma_mul_nonnegative(v, w);
    let m = 2 * n;
    lemma_times(p, s, p + m, i, u);
    lemma_times(p - m, i, p, s, u);
    lemma_times(p, t, p + m, w, v);
    lemma_times(p - m, w, p, t, v);
    lemma_mul_is_commutative(t, v);
    lemma_mul_is_commutative(w, v);
    // From above.
    lemma_added(p, p + m, s * u, i * u, t, w);
    lemma_chain(p, v * t, s * u + t, i * u + w, 1, m);
    lemma_mul_inequality(p - m - 2, p - m, v * w);
    // From below.
    lemma_chain_down(p, v * t + t, s * u, i * u, 1, m);
    lemma_added(p, p + m, v * t, v * w, t, w);
    lemma_mul_inequality(p - m - 2, p - 1 - m, i * u);
    lemma_mul_inequality(p + m, p + m + 2, v * w + w);
}

/// A sum of positive numbers is positive.
proof fn lemma_positive_sum<A: Fn(Op) -> Double>(a: A, ys: Seq<Double>)
    requires
        rounds(a),
        ys.len() > 0,
        forall|i: int| 0 <= i < ys.len() ==> (#[trigger] ys[i]).positive(),
    ensures
        sum(a, ys).positive(),
{
    lemma_orders(a);
    let init = ys.drop_last();
    assert forall|i: int| 0 <= i < init.len() implies nonnegative(#[trigger] init[i]) by {
        assert(init[i] == ys[i]);
    }
    lemma_summands(a, init);
    let (s, y) = (sum(a, init), ys.last());
    assert(ys[ys.len() - 1].positive());
    assert(y.at_most(eval(a, Op::Add(s, y))));
}

/// What a trade does to a bucket, in exact numbers. The volume with the trade in
/// is the number nearest to the bucket's and the trade's together. The bucket
/// closes exactly when that is no less than the target; it then has all of it,
/// the trade's price and time, one trade more than before, and a price change
/// that is nearest to the trade's price less the reference. Otherwise it keeps
/// filling.
pub proof fn law_a_bucket_takes_whole_trades<A: Fn(Op) -> Double>(
    a: A,
    s: BucketState,
    price: Double,
    volume: Double,
    ts_ns: u64,
)
    requires
        rounds(a),
        bucket_has_room(s),
        s.acc_volume.finite(),
        volume.finite(),
        s.target_volume.finite(),
        eval(a, Op::Add(s.acc_volume, volume)).finite(),
    ensures
        exists|filled: Double|
            {
                let after = bucket_after(a, s, price, volume);
                let closed = bucket_closed(a, s, price, volume, ts_ns);
                let reference = if s.reference is Some {
                    s.reference->0
                } else {
                    price
                };
                &&& #[trigger] rounded(filled, quanta(s.acc_volume) + quanta(volume), 1)
                &&& filled.finite()
                &&& closed is Some <==> quanta(filled) >= quanta(s.target_volume)
                &&& closed matches Some(c) ==> {
                    &&& c.volume == filled
                    &&& c.trade_count == s.trade_count + 1
                    &&& c.bucket_id == s.bucket_id
                    &&& c.last_price == price
                    &&& c.ts_close_ns == ts_ns
                    &&& price.finite() && reference.finite() ==> rounded(
                        c.delta_p,
                        quanta(price) - quanta(reference),
                        1,
                    )
                    &&& quanta(after.acc_volume) == 0
                    &&& after.trade_count == 0
                    &&& after.bucket_id == s.bucket_id + 1
                    &&& after.reference == Some(price)
                    &&& after.target_volume == s.target_volume
                }
                &&& closed is None ==> {
                    &&& after.acc_volume == filled
                    &&& after.trade_count == s.trade_count + 1
                    &&& after.bucket_id == s.bucket_id
                    &&& after.reference == Some(reference)
                    &&& after.target_volume == s.target_volume
                }
            },
{
    lemma_constants();
    let filled = eval(a, Op::Add(s.acc_volume, volume));
    assert(rounded(filled, quanta(s.acc_volume) + quanta(volume), 1));
    lemma_quanta_order(s.target_volume, filled);
    lemma_quanta_order(filled, s.target_volume);
}

/// The bucket being filled holds the sum of what came in since it was empty.
proof fn lemma_filling<A: Fn(Op) -> Double>(a: A, s: BucketState, trades: Seq<(Double, Double)>)
    requires
        s.acc_volume == (Double { bits: ZERO }),
        s.trade_count == 0,
        trades.len() < u32::MAX,
        none_closes(a, s, trades),
    ensures
        bucketer_through(a, s, trades).acc_volume == sum(a, seconds(trades)),
        bucketer_through(a, s, trades).trade_count == trades.len(),
        bucketer_through(a, s, trades).target_volume == s.target_volume,
        bucketer_through(a, s, trades).bucket_id == s.bucket_id,
    decreases trades.len(),
{
    if trades.len() > 0 {
        let init = trades.drop_last();
        assert forall|k: int| 0 <= k < init.len() implies filled_volume(
            a,
            bucketer_through(a, s, #[trigger] init.take(k)),
            init[k].1,
        ).below(s.target_volume) by {
            assert(init.take(k) =~= trades.take(k));
            assert(init[k] == trades[k]);
        }
        lemma_filling(a, s, init);
        assert(trades.take(trades.len() - 1) =~= init);
        assert(seconds(trades).drop_last() =~= seconds(init));
    }
}

/// A bucket that closes holds all the trades since it was empty, the closing one
/// last: their number, and their volumes, whose total it has to within two units
/// of the precision for each.
pub proof fn law_a_bucket_holds_all_its_trades<A: Fn(Op) -> Double>(
    a: A,
    s: BucketState,
    trades: Seq<(Double, Double)>,
    price: Double,
    volume: Double,
    ts_ns: u64,
)
    requires
        rounds(a),
        s.acc_volume == (Double { bits: ZERO }),
        s.trade_count == 0,
        trades.len() < u32::MAX,
        none_closes(a, s, trades),
        nonnegative(volume),
        forall|i: int| 0 <= i < trades.len() ==> nonnegative((#[trigger] trades[i]).1),
    ensures
        bucket_closed(
            a,
            bucketer_through(a, s, trades),
            price,
            volume,
            ts_ns,
        ) matches Some(closed) ==> {
            let n = trades.len() + 1;
            let exact = total(trades.map_values(|t: (Double, Double)| quanta(t.1))) + quanta(
                volume,
            );
            &&& closed.trade_count == n
            &&& closed.bucket_id == s.bucket_id
            &&& closed.volume.finite() ==> {
                &&& EXACT * quanta(closed.volume) <= (EXACT + 2 * n) * exact
                &&& (EXACT - 2 * n) * exact <= EXACT * quanta(closed.volume)
            }
        },
{
    lemma_filling(a, s, trades);
    let at = bucketer_through(a, s, trades);
    if let Some(closed) = bucket_closed(a, at, price, volume, ts_ns) {
        let ys = seconds(trades).push(volume);
        assert(ys.drop_last() =~= seconds(trades));
        assert(closed.volume == sum(a, ys));
        assert forall|i: int| 0 <= i < ys.len() implies nonnegative(#[trigger] ys[i]) by {
            if i < trades.len() {
                assert(nonnegative(trades[i].1));
            }
        }
        if closed.volume.finite() {
            lemma_sum_up(a, ys);
            let qs = trades.map_values(|t: (Double, Double)| quanta(t.1));
            assert(in_quanta(ys).drop_last() =~= qs);
        }
    }
}

/// What a trade does to an engine. One that closes no bucket changes the bucket
/// and nothing else. One that closes a bucket gives a reading, and its bucket
/// enters the deviation. Where the deviation from before it is finite and
/// positive and the price change finite, the bucket's imbalance and volume enter
/// the window behind what was there, of which the oldest leaves once the window
/// is full; a full window has a score, the score enters the rank's window, and
/// the interval is drawn from the number source, which then goes on behind those
/// draws. Any other bucket leaves window, rank and source as they are and has no
/// score.
pub proof fn law_a_closed_bucket_is_scored_once<A: Fn(Op) -> Double>(
    a: A,
    s: EngineState,
    price: Double,
    volume: Double,
    ts_ns: u64,
)
    requires
        s.vpin_window >= 1,
        s.imbalances.len() <= s.vpin_window,
    ensures
        ({
            let reading = reading_at(a, s, price, volume, ts_ns);
            let after = engine_after(a, s, price, volume, ts_ns);
            &&& after.bucketer == bucket_after(a, s.bucketer, price, volume)
            &&& after.vpin_window == s.vpin_window
            &&& match bucket_closed(a, s.bucketer, price, volume, ts_ns) {
                None => {
                    &&& reading is None
                    &&& after == (EngineState { bucketer: after.bucketer, ..s })
                },
                Some(closed) => {
                    let window = after.imbalances;
                    let r = reading->0;
                    &&& reading is Some
                    &&& r.bucket_id == closed.bucket_id
                    &&& r.ts_close_ns == closed.ts_close_ns
                    &&& r.trades_in_bucket == closed.trade_count
                    &&& after.sigma == sigma_after(a, s.sigma, closed.delta_p)
                    &&& if s.sigma.current is Some && s.sigma.current->0.finite()
                        && s.sigma.current->0.positive() && closed.delta_p.finite() {
                        let gone: int = if s.imbalances.len() == s.vpin_window {
                            1
                        } else {
                            0
                        };
                        &&& window.len() == s.imbalances.len() + 1 - gone
                        &&& window.last() == (
                            imbalance(a, closed, s.sigma.current->0),
                            closed.volume,
                        )
                        &&& forall|i: int|
                            0 <= i < window.len() - 1 ==> #[trigger] window[i] == s.imbalances[i
                                + gone]
                        &&& r.vpin == (if window.len() == s.vpin_window {
                            Some(ratio(a, window))
                        } else {
                            None
                        })
                    } else {
                        &&& window == s.imbalances
                        &&& r.vpin is None
                    }
                    &&& match (r.vpin, s.cdf) {
                        (Some(v), Some(c)) => {
                            &&& r.vpin_cdf == cdf_rank(a, c, v)
                            &&& after.cdf == Some(cdf_after(c, v))
                        },
                        _ => r.vpin_cdf is None && after.cdf == s.cdf,
                    }
                    &&& match (r.vpin, s.ci) {
                        (Some(v), Some((cfg, rng))) => {
                            let (low, high) = interval(a, window, cfg, rng);
                            let draws = cfg.bootstrap_samples as nat * window.len();
                            &&& r.vpin_ci_low == Some(low)
                            &&& r.vpin_ci_high == Some(high)
                            &&& after.ci == Some((cfg, state_after(rng, draws)))
                        },
                        _ => {
                            &&& r.vpin_ci_low is None
                            &&& r.vpin_ci_high is None
                            &&& after.ci == s.ci
                        },
                    }
                },
            }
        }),
{
}

} // verus!
