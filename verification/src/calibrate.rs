//! Offline parameter sweep: a captured tape is replayed through the estimator
//! at every combination of bucket volume, sigma window and averaging window,
//! and described, so that a person can pick a combination.
//!
//! The sweep also measures how often the probabilistic buy and sell call of a
//! bucket matches the real taker side, and whether a combination's accuracy
//! differs from the best one's by more than sampling noise.

use crate::bucket::{
    bucket_after, bucket_closed, bucket_has_room, fresh_bucketer, BucketState, ClosedBucket,
    VolumeBucketer,
};
use crate::bvc::{classify, normal_cdf, sides, standard_normal_cdf};
use crate::double::{
    eval, is_unit, mean, mean_of, sample_std, sample_std_of, Double, Op, HALF,
    HUNDRED_MILLION, INFINITY, MILLION, NAN, ONE, SIGN, TWO, ZERO,
};
use crate::error::VpinError;
use crate::trade::{NormalizedTrade, TakerSide};
use crate::vpin::{
    config_error, engine_after, fresh_engine, fresh_sigma, is_classified, reading_at, sigma_after,
    EngineState, RollingSigma, SigmaState, VpinEngine, VpinEngineConfig, VpinReading,
};
use vstd::prelude::*;

verus! {

/// Fewest compared buckets on either side for which the normal approximation
/// of the significance test is trusted.
pub const MIN_COMPARED: u64 = 30;

/// A trade as the estimator takes it, with its ground-truth side.
#[derive(Clone, Copy, Debug, PartialEq, Eq, Structural)]
pub struct Trade {
    pub price: Double,
    pub volume: Double,
    pub ts_ns: u64,
    pub taker_side: TakerSide,
}

/// How well the classification did on a tape.
#[derive(Clone, Copy, Debug, PartialEq, Eq, Structural)]
pub struct BvcStats {
    /// Fraction of compared buckets whose majority side was called right; NaN
    /// if there was nothing to compare.
    pub accuracy: Double,
    /// Mean distance between the called and the true buy fraction; NaN if
    /// there was nothing to compare.
    pub mean_abs_error: Double,
    /// Buckets compared: those that the deviation was warm for.
    pub compared: u64,
}

/// What one combination of parameters gave.
#[derive(Clone, Copy, Debug, PartialEq, Eq, Structural)]
pub struct Stats {
    pub bucket_volume: Double,
    pub sigma_window: usize,
    pub vpin_window: usize,
    pub total_buckets: u64,
    pub non_warmup_readings: u64,
    pub vpin_mean: Double,
    pub vpin_min: Double,
    pub vpin_max: Double,
    pub vpin_stddev: Double,
    /// Mean time between bucket closes on the exchange's own clock.
    pub avg_bucket_interval_ms: Double,
    pub bvc_accuracy: Double,
    pub bvc_mean_abs_error: Double,
    pub bvc_compared: u64,
    /// Two-tailed p-value of this accuracy against the sweep's best one; NaN
    /// for the best one itself and where too few buckets were compared.
    pub bvc_accuracy_p_value: Double,
}

/// Units of 1e-8 as a number.
pub open spec fn scaled<A: Fn(Op) -> Double>(a: A, raw: u64) -> Double {
    eval(a, Op::Div(eval(a, Op::Of(raw)), Double { bits: HUNDRED_MILLION }))
}

/// A captured trade as the estimator takes it.
pub open spec fn replayed<A: Fn(Op) -> Double>(a: A, t: NormalizedTrade) -> Trade {
    Trade {
        price: scaled(a, t.price.raw),
        volume: scaled(a, t.qty.raw),
        ts_ns: t.ts_exchange_ns,
        taker_side: t.taker_side,
    }
}

/// Units of 1e-8 as a number.
pub fn scaled_of<A: Fn(Op) -> Double>(arith: &A, raw: u64) -> (r: Double)
    requires
        is_unit(*arith),
    ensures
        r == scaled(*arith, raw),
{
    let units: Double = arith(Op::Of(raw));
    arith(Op::Div(units, Double { bits: HUNDRED_MILLION }))
}

/// A tape as the estimator takes it.
pub fn replay<A: Fn(Op) -> Double>(arith: &A, tape: &Vec<NormalizedTrade>) -> (r: Vec<Trade>)
    requires
        is_unit(*arith),
    ensures
        r@ == tape@.map_values(|t: NormalizedTrade| replayed(*arith, t)),
{
    let mut out: Vec<Trade> = Vec::new();
    let mut i: usize = 0;
    while i < tape.len()
        invariant
            i <= tape@.len(),
            is_unit(*arith),
            out@ =~= tape@.map_values(|t: NormalizedTrade| replayed(*arith, t)).take(i as int),
        decreases tape.len() - i,
    {
        let t: &NormalizedTrade = &tape[i];
        out.push(
            Trade {
                price: scaled_of(arith, t.price.raw()),
                volume: scaled_of(arith, t.qty.raw()),
                ts_ns: t.ts_exchange_ns,
                taker_side: t.taker_side,
            },
        );
        i += 1;
    }
    assert(out@ =~= tape@.map_values(|t: NormalizedTrade| replayed(*arith, t)));
    out
}

/// The bucketer once all the trades are in.
pub open spec fn bucketer_at<A: Fn(Op) -> Double>(
    a: A,
    bucket_volume: Double,
    trades: Seq<Trade>,
) -> BucketState
    decreases trades.len(),
{
    if trades.len() == 0 {
        fresh_bucketer(bucket_volume)
    } else {
        let t = trades.last();
        bucket_after(a, bucketer_at(a, bucket_volume, trades.drop_last()), t.price, t.volume)
    }
}

/// The bucketer's counters hold out for the whole tape.
pub open spec fn room_throughout<A: Fn(Op) -> Double>(
    a: A,
    bucket_volume: Double,
    trades: Seq<Trade>,
) -> bool {
    forall|k: int|
        0 <= k < trades.len() ==> bucket_has_room(
            #[trigger] bucketer_at(a, bucket_volume, trades.take(k)),
        )
}

/// Counters run ahead of the trades at most.
proof fn lemma_counters<A: Fn(Op) -> Double>(a: A, bucket_volume: Double, trades: Seq<Trade>)
    requires
        trades.len() <= u64::MAX,
        room_throughout(a, bucket_volume, trades),
    ensures
        bucketer_at(a, bucket_volume, trades).trade_count <= trades.len(),
        bucketer_at(a, bucket_volume, trades).bucket_id <= trades.len(),
    decreases trades.len(),
{
    if trades.len() > 0 {
        let n = trades.len() - 1;
        assert(trades.take(n) =~= trades.drop_last());
        assert forall|k: int| 0 <= k < n implies bucket_has_room(
            #[trigger] bucketer_at(a, bucket_volume, trades.drop_last().take(k)),
        ) by {
            assert(trades.drop_last().take(k) =~= trades.take(k));
        }
        lemma_counters(a, bucket_volume, trades.drop_last());
        assert(bucket_has_room(bucketer_at(a, bucket_volume, trades.take(n))));
    }
}

/// A tape of fewer trades than a 32-bit counter counts never runs a counter
/// out.
pub proof fn law_a_short_tape_has_room<A: Fn(Op) -> Double>(
    a: A,
    bucket_volume: Double,
    trades: Seq<Trade>,
)
    requires
        trades.len() <= u32::MAX,
    ensures
        room_throughout(a, bucket_volume, trades),
    decreases trades.len(),
{
    assert forall|k: int| 0 <= k < trades.len() implies bucket_has_room(
        #[trigger] bucketer_at(a, bucket_volume, trades.take(k)),
    ) by {
        law_a_short_tape_has_room(a, bucket_volume, trades.take(k));
        lemma_counters(a, bucket_volume, trades.take(k));
    }
}

/// Whether the bucketer's counters hold out for the whole tape.
pub fn has_room_throughout<A: Fn(Op) -> Double>(
    arith: &A,
    bucket_volume: Double,
    trades: &Vec<Trade>,
) -> (r: bool)
    requires
        is_unit(*arith),
        bucket_volume.finite(),
        bucket_volume.positive(),
    ensures
        r == room_throughout(*arith, bucket_volume, trades@),
{
    let mut bucketer: VolumeBucketer = match VolumeBucketer::new(bucket_volume) {
        Ok(b) => b,
        Err(_) => {
            return false;
        },
    };
    let mut i: usize = 0;
    assert(trades@.take(0) =~= Seq::empty());
    while i < trades.len()
        invariant
            i <= trades@.len(),
            is_unit(*arith),
            bucketer@ == bucketer_at(*arith, bucket_volume, trades@.take(i as int)),
            forall|k: int|
                0 <= k < i ==> bucket_has_room(
                    #[trigger] bucketer_at(*arith, bucket_volume, trades@.take(k)),
                ),
        decreases trades.len() - i,
    {
        if !bucketer.has_room() {
            return false;
        }
        assert(trades@.take(i + 1).drop_last() =~= trades@.take(i as int));
        let t: Trade = trades[i];
        let _ = bucketer.push(arith, t.price, t.volume, t.ts_ns);
        i += 1;
    }
    true
}

/// The engine once all the trades are in.
pub open spec fn engine_at<A: Fn(Op) -> Double>(
    a: A,
    cfg: VpinEngineConfig,
    trades: Seq<Trade>,
) -> EngineState
    decreases trades.len(),
{
    if trades.len() == 0 {
        fresh_engine(cfg)
    } else {
        let t = trades.last();
        engine_after(a, engine_at(a, cfg, trades.drop_last()), t.price, t.volume, t.ts_ns)
    }
}

/// The readings that the trades give, in their order.
pub open spec fn readings<A: Fn(Op) -> Double>(
    a: A,
    cfg: VpinEngineConfig,
    trades: Seq<Trade>,
) -> Seq<VpinReading>
    decreases trades.len(),
{
    if trades.len() == 0 {
        Seq::empty()
    } else {
        let t = trades.last();
        let before = readings(a, cfg, trades.drop_last());
        match reading_at(
            a,
            engine_at(a, cfg, trades.drop_last()),
            t.price,
            t.volume,
            t.ts_ns,
        ) {
            Some(reading) => before.push(reading),
            None => before,
        }
    }
}

/// An engine's bucketer runs as a bucketer on its own does.
proof fn lemma_engine_bucketer<A: Fn(Op) -> Double>(
    a: A,
    cfg: VpinEngineConfig,
    trades: Seq<Trade>,
)
    ensures
        engine_at(a, cfg, trades).bucketer == bucketer_at(a, cfg.bucket_volume, trades),
    decreases trades.len(),
{
    if trades.len() > 0 {
        lemma_engine_bucketer(a, cfg, trades.drop_last());
    }
}

/// When the buckets closed.
pub open spec fn close_times(rs: Seq<VpinReading>) -> Seq<u64> {
    rs.map_values(|r: VpinReading| r.ts_close_ns)
}

/// The VPINs of the readings that have one.
pub open spec fn known_vpins(rs: Seq<VpinReading>) -> Seq<Double>
    decreases rs.len(),
{
    if rs.len() == 0 {
        Seq::empty()
    } else {
        match rs.last().vpin {
            Some(v) => known_vpins(rs.drop_last()).push(v),
            None => known_vpins(rs.drop_last()),
        }
    }
}

/// The smallest value, positive infinity if there is none.
pub open spec fn smallest(xs: Seq<Double>) -> Double
    decreases xs.len(),
{
    if xs.len() == 0 {
        Double { bits: INFINITY }
    } else {
        smallest(xs.drop_last()).lesser(xs.last())
    }
}

/// The largest value, negative infinity if there is none.
pub open spec fn largest(xs: Seq<Double>) -> Double
    decreases xs.len(),
{
    if xs.len() == 0 {
        Double { bits: (SIGN + INFINITY) as u64 }
    } else {
        largest(xs.drop_last()).greater(xs.last())
    }
}

/// Mean, minimum, maximum and sample deviation: all NaN of nothing, and no
/// deviation of a single value.
pub open spec fn summary<A: Fn(Op) -> Double>(a: A, xs: Seq<Double>) -> (
    Double,
    Double,
    Double,
    Double,
) {
    let nan = Double { bits: NAN };
    if xs.len() == 0 {
        (nan, nan, nan, nan)
    } else {
        (
            mean(a, xs),
            smallest(xs),
            largest(xs),
            if xs.len() > 1 {
                sample_std(a, xs)
            } else {
                Double { bits: ZERO }
            },
        )
    }
}

pub fn summarize<A: Fn(Op) -> Double>(arith: &A, values: &Vec<Double>) -> (r: (
    Double,
    Double,
    Double,
    Double,
))
    requires
        is_unit(*arith),
    ensures
        r == summary(*arith, values@),
{
    let nan: Double = Double { bits: NAN };
    if values.len() == 0 {
        return (nan, nan, nan, nan);
    }
    let mut low: Double = Double { bits: INFINITY };
    let mut high: Double = Double { bits: SIGN + INFINITY };
    let mut i: usize = 0;
    assert(values@.take(0) =~= Seq::empty());
    while i < values.len()
        invariant
            i <= values@.len(),
            low == smallest(values@.take(i as int)),
            high == largest(values@.take(i as int)),
        decreases values.len() - i,
    {
        assert(values@.take(i + 1).drop_last() =~= values@.take(i as int));
        low = low.min(values[i]);
        high = high.max(values[i]);
        i += 1;
    }
    assert(values@.take(i as int) =~= values@);
    let deviation: Double = if values.len() > 1 {
        sample_std_of(arith, values)
    } else {
        Double { bits: ZERO }
    };
    (mean_of(arith, values), low, high, deviation)
}

/// The mean gap between the first and the last time, in milliseconds; NaN of
/// fewer than two times.
pub open spec fn interval_ms<A: Fn(Op) -> Double>(a: A, times: Seq<u64>) -> Double {
    if times.len() < 2 {
        Double { bits: NAN }
    } else {
        let span = if times.last() >= times[0] {
            (times.last() - times[0]) as u64
        } else {
            0
        };
        eval(
            a,
            Op::Div(
                eval(
                    a,
                    Op::Div(eval(a, Op::Of(span)), eval(a, Op::Of((times.len() - 1) as u64))),
                ),
                Double { bits: MILLION },
            ),
        )
    }
}

pub fn mean_interval_ms<A: Fn(Op) -> Double>(arith: &A, close_times_ns: &Vec<u64>) -> (r: Double)
    requires
        is_unit(*arith),
    ensures
        r == interval_ms(*arith, close_times_ns@),
{
    let n: usize = close_times_ns.len();
    if n < 2 {
        return Double { bits: NAN };
    }
    let first: u64 = close_times_ns[0];
    let last: u64 = close_times_ns[n - 1];
    let span: u64 = if last >= first {
        last - first
    } else {
        0
    };
    let total: Double = arith(Op::Of(span));
    let gaps: Double = arith(Op::Of((n - 1) as u64));
    let mean_ns: Double = arith(Op::Div(total, gaps));
    arith(Op::Div(mean_ns, Double { bits: MILLION }))
}

/// The classification's running comparison with the taker side.
pub struct BvcState {
    pub bucketer: BucketState,
    pub sigma: SigmaState,
    /// Taker volume of the bucket being filled, by side.
    pub buy_volume: Double,
    pub sell_volume: Double,
    /// Majority calls that were right.
    pub correct: nat,
    /// How far the called buy fraction lay off, per compared bucket.
    pub errors: Seq<Double>,
}

pub open spec fn fresh_bvc(bucket_volume: Double, sigma_window: nat) -> BvcState {
    BvcState {
        bucketer: fresh_bucketer(bucket_volume),
        sigma: fresh_sigma(sigma_window),
        buy_volume: Double { bits: ZERO },
        sell_volume: Double { bits: ZERO },
        correct: 0,
        errors: Seq::empty(),
    }
}

/// A side's taker volume with a trade in, if it is the trade's side.
pub open spec fn side_volume<A: Fn(Op) -> Double>(
    a: A,
    volume: Double,
    t: Trade,
    side: TakerSide,
) -> Double {
    if t.taker_side == side {
        eval(a, Op::Add(volume, t.volume))
    } else {
        volume
    }
}

/// The buy fraction that the classification calls for a closed bucket.
pub open spec fn called_fraction<A: Fn(Op) -> Double>(
    a: A,
    closed: ClosedBucket,
    sigma: Double,
) -> Double {
    eval(a, Op::Div(sides(a, closed.delta_p, sigma, closed.volume).0, closed.volume))
}

/// The buy fraction of the taker volume.
pub open spec fn true_fraction<A: Fn(Op) -> Double>(a: A, buy: Double, sell: Double) -> Double {
    eval(a, Op::Div(buy, eval(a, Op::Add(buy, sell))))
}

/// Whether a buy fraction is a buy majority.
pub open spec fn is_buy_majority(fraction: Double) -> bool {
    (Double { bits: HALF }).below(fraction)
}

/// The comparison after a trade. A bucket that closes is called by the
/// deviation from before it, compared, and only then enters the deviation.
pub open spec fn bvc_after<A: Fn(Op) -> Double>(a: A, s: BvcState, t: Trade) -> BvcState {
    let buy = side_volume(a, s.buy_volume, t, TakerSide::Buy);
    let sell = side_volume(a, s.sell_volume, t, TakerSide::Sell);
    let bucketer = bucket_after(a, s.bucketer, t.price, t.volume);
    match bucket_closed(a, s.bucketer, t.price, t.volume, t.ts_ns) {
        None => BvcState { bucketer, buy_volume: buy, sell_volume: sell, ..s },
        Some(closed) => {
            let called = called_fraction(a, closed, s.sigma.current->0);
            let real_one = true_fraction(a, buy, sell);
            let compared = is_classified(s.sigma.current, closed);
            BvcState {
                bucketer,
                sigma: sigma_after(a, s.sigma, closed.delta_p),
                buy_volume: Double { bits: ZERO },
                sell_volume: Double { bits: ZERO },
                correct: if compared && is_buy_majority(called) == is_buy_majority(real_one) {
                    s.correct + 1
                } else {
                    s.correct
                },
                errors: if compared {
                    s.errors.push(eval(a, Op::Sub(called, real_one)).absolute())
                } else {
                    s.errors
                },
            }
        },
    }
}

/// The comparison once all the trades are in.
pub open spec fn bvc_at<A: Fn(Op) -> Double>(
    a: A,
    bucket_volume: Double,
    sigma_window: nat,
    trades: Seq<Trade>,
) -> BvcState
    decreases trades.len(),
{
    if trades.len() == 0 {
        fresh_bvc(bucket_volume, sigma_window)
    } else {
        bvc_after(a, bvc_at(a, bucket_volume, sigma_window, trades.drop_last()), trades.last())
    }
}

/// The comparison buckets as the estimator does, and makes no more right calls
/// than calls.
pub proof fn lemma_bvc_at<A: Fn(Op) -> Double>(
    a: A,
    bucket_volume: Double,
    sigma_window: nat,
    trades: Seq<Trade>,
)
    ensures
        bvc_at(a, bucket_volume, sigma_window, trades).bucketer == bucketer_at(
            a,
            bucket_volume,
            trades,
        ),
        bvc_at(a, bucket_volume, sigma_window, trades).correct <= bvc_at(
            a,
            bucket_volume,
            sigma_window,
            trades,
        ).errors.len() <= trades.len(),
    decreases trades.len(),
{
    if trades.len() > 0 {
        lemma_bvc_at(a, bucket_volume, sigma_window, trades.drop_last());
    }
}

/// What a finished comparison comes to.
pub open spec fn bvc_result<A: Fn(Op) -> Double>(a: A, s: BvcState) -> BvcStats {
    if s.errors.len() == 0 {
        BvcStats {
            accuracy: Double { bits: NAN },
            mean_abs_error: Double { bits: NAN },
            compared: 0,
        }
    } else {
        BvcStats {
            accuracy: eval(
                a,
                Op::Div(
                    eval(a, Op::Of(s.correct as u64)),
                    eval(a, Op::Of(s.errors.len() as u64)),
                ),
            ),
            mean_abs_error: mean(a, s.errors),
            compared: s.errors.len() as u64,
        }
    }
}

/// Why the comparison refuses its parameters, if it does.
pub open spec fn bvc_error(bucket_volume: Double, sigma_window: usize) -> Option<VpinError> {
    if !(bucket_volume.finite() && bucket_volume.positive()) {
        Some(VpinError::InvalidBucketVolume(bucket_volume))
    } else if sigma_window < 2 {
        Some(VpinError::InvalidWindow { got: sigma_window, min: 2 })
    } else {
        None
    }
}

/// The comparison of a whole tape, or why its parameters are refused.
pub open spec fn bvc_outcome<A: Fn(Op) -> Double>(
    a: A,
    trades: Seq<Trade>,
    bucket_volume: Double,
    sigma_window: usize,
) -> Result<BvcStats, VpinError> {
    match bvc_error(bucket_volume, sigma_window) {
        Some(e) => Err(e),
        None => Ok(bvc_result(a, bvc_at(a, bucket_volume, sigma_window as nat, trades))),
    }
}

/// Replays a tape through the bucketer, the deviation and the classification,
/// and compares each bucket's call with its real taker-side split.
pub fn bvc_accuracy_stats<A: Fn(Op) -> Double>(
    arith: &A,
    trades: &Vec<Trade>,
    bucket_volume: Double,
    sigma_window: usize,
) -> (r: Result<BvcStats, VpinError>)
    requires
        is_unit(*arith),
        bvc_error(bucket_volume, sigma_window) is None ==> room_throughout(
            *arith,
            bucket_volume,
            trades@,
        ),
    ensures
        r == bvc_outcome(*arith, trades@, bucket_volume, sigma_window),
{
    let mut bucketer: VolumeBucketer = match VolumeBucketer::new(bucket_volume) {
        Ok(b) => b,
        Err(e) => {
            return Err(e);
        },
    };
    let mut sigma: RollingSigma = match RollingSigma::new(sigma_window) {
        Ok(s) => s,
        Err(e) => {
            return Err(e);
        },
    };
    let mut buy_volume: Double = Double { bits: ZERO };
    let mut sell_volume: Double = Double { bits: ZERO };
    let mut correct: u64 = 0;
    let mut errors: Vec<Double> = Vec::new();
    let mut i: usize = 0;
    assert(trades@.take(0) =~= Seq::empty());
    while i < trades.len()
        invariant
            i <= trades@.len(),
            is_unit(*arith),
            room_throughout(*arith, bucket_volume, trades@),
            sigma.wf(),
            ({
                let s = bvc_at(
                    *arith,
                    bucket_volume,
                    sigma_window as nat,
                    trades@.take(i as int),
                );
                &&& bucketer@ == s.bucketer
                &&& sigma@ == s.sigma
                &&& buy_volume == s.buy_volume
                &&& sell_volume == s.sell_volume
                &&& correct == s.correct
                &&& errors@ == s.errors
            }),
            correct <= errors@.len() <= i,
        decreases trades.len() - i,
    {
        let ghost before = bvc_at(
            *arith,
            bucket_volume,
            sigma_window as nat,
            trades@.take(i as int),
        );
        proof {
            assert(trades@.take(i + 1).drop_last() =~= trades@.take(i as int));
            lemma_bvc_at(*arith, bucket_volume, sigma_window as nat, trades@.take(i as int));
            lemma_bvc_at(*arith, bucket_volume, sigma_window as nat, trades@.take(i + 1));
            assert(bucket_has_room(
                bucketer_at(*arith, bucket_volume, trades@.take(i as int)),
            ));
        }
        let t: Trade = trades[i];
        match t.taker_side {
            TakerSide::Buy => {
                buy_volume = arith(Op::Add(buy_volume, t.volume));
            },
            TakerSide::Sell => {
                sell_volume = arith(Op::Add(sell_volume, t.volume));
            },
        }
        match bucketer.push(arith, t.price, t.volume, t.ts_ns) {
            None => {},
            Some(closed) => {
                if let Some(sigma_before) = sigma.current() {
                    if let Some((called_buy, _)) = classify(
                        arith,
                        closed.delta_p,
                        sigma_before,
                        closed.volume,
                    ) {
                        let called: Double = arith(Op::Div(called_buy, closed.volume));
                        let both: Double = arith(Op::Add(buy_volume, sell_volume));
                        let real_one: Double = arith(Op::Div(buy_volume, both));
                        let half: Double = Double { bits: HALF };
                        if half.lt(called) == half.lt(real_one) {
                            correct = correct + 1;
                        }
                        errors.push(arith(Op::Sub(called, real_one)).abs());
                    }
                }
                let _ = sigma.push(arith, closed.delta_p);
                buy_volume = Double { bits: ZERO };
                sell_volume = Double { bits: ZERO };
            },
        }
        i += 1;
    }
    assert(trades@.take(i as int) =~= trades@);
    let compared: u64 = errors.len() as u64;
    if compared == 0 {
        return Ok(
            BvcStats {
                accuracy: Double { bits: NAN },
                mean_abs_error: Double { bits: NAN },
                compared: 0,
            },
        );
    }
    let hits: Double = arith(Op::Of(correct));
    let tries: Double = arith(Op::Of(compared));
    Ok(
        BvcStats {
            accuracy: arith(Op::Div(hits, tries)),
            mean_abs_error: mean_of(arith, &errors),
            compared,
        },
    )
}

/// The engine settings of one point of the sweep: it takes no interval.
pub open spec fn point_config(
    bucket_volume: Double,
    sigma_window: usize,
    vpin_window: usize,
    cdf_window: Option<usize>,
) -> VpinEngineConfig {
    VpinEngineConfig {
        bucket_volume,
        sigma_window,
        vpin_window,
        cdf_window,
        confidence_interval: None,
    }
}

/// The description of the readings that a configuration gave.
pub open spec fn stats_of<A: Fn(Op) -> Double>(
    a: A,
    cfg: VpinEngineConfig,
    rs: Seq<VpinReading>,
    bvc: BvcStats,
) -> Stats {
    let (vpin_mean, vpin_min, vpin_max, vpin_stddev) = summary(a, known_vpins(rs));
    Stats {
        bucket_volume: cfg.bucket_volume,
        sigma_window: cfg.sigma_window,
        vpin_window: cfg.vpin_window,
        total_buckets: rs.len() as u64,
        non_warmup_readings: known_vpins(rs).len() as u64,
        vpin_mean,
        vpin_min,
        vpin_max,
        vpin_stddev,
        avg_bucket_interval_ms: interval_ms(a, close_times(rs)),
        bvc_accuracy: bvc.accuracy,
        bvc_mean_abs_error: bvc.mean_abs_error,
        bvc_compared: bvc.compared,
        bvc_accuracy_p_value: Double { bits: NAN },
    }
}

/// What one configuration comes to on a tape, or why it is refused.
pub open spec fn point_outcome<A: Fn(Op) -> Double>(
    a: A,
    trades: Seq<Trade>,
    cfg: VpinEngineConfig,
    bvc: BvcStats,
) -> Result<Stats, VpinError> {
    match config_error(cfg) {
        Some(e) => Err(e),
        None => Ok(stats_of(a, cfg, readings(a, cfg, trades), bvc)),
    }
}

/// There are at most as many readings as trades, and at most as many VPINs as
/// readings.
proof fn lemma_readings_len<A: Fn(Op) -> Double>(
    a: A,
    cfg: VpinEngineConfig,
    trades: Seq<Trade>,
)
    ensures
        readings(a, cfg, trades).len() <= trades.len(),
    decreases trades.len(),
{
    if trades.len() > 0 {
        lemma_readings_len(a, cfg, trades.drop_last());
    }
}

/// Buckets are numbered from 0 in the order in which they close.
pub proof fn law_bucket_ids_count_up<A: Fn(Op) -> Double>(
    a: A,
    cfg: VpinEngineConfig,
    trades: Seq<Trade>,
)
    requires
        room_throughout(a, cfg.bucket_volume, trades),
    ensures
        engine_at(a, cfg, trades).bucketer.bucket_id == readings(a, cfg, trades).len(),
        forall|i: int|
            0 <= i < readings(a, cfg, trades).len() ==> (#[trigger] readings(
                a,
                cfg,
                trades,
            )[i]).bucket_id == i,
    decreases trades.len(),
{
    if trades.len() > 0 {
        let init = trades.drop_last();
        let n = trades.len() - 1;
        assert(trades.take(n) =~= init);
        assert forall|k: int| 0 <= k < n implies bucket_has_room(
            #[trigger] bucketer_at(a, cfg.bucket_volume, init.take(k)),
        ) by {
            assert(init.take(k) =~= trades.take(k));
        }
        law_bucket_ids_count_up(a, cfg, init);
        lemma_engine_bucketer(a, cfg, init);
        assert(bucket_has_room(bucketer_at(a, cfg.bucket_volume, trades.take(n))));
        let before = readings(a, cfg, init);
        assert forall|i: int| 0 <= i < readings(a, cfg, trades).len() implies (
        #[trigger] readings(a, cfg, trades)[i]).bucket_id == i by {
            if i < before.len() {
                assert(readings(a, cfg, trades)[i] == before[i]);
            }
        }
    }
}

/// Whether a reading has a rank: it has a score, ranks are configured, and with
/// it there have been enough scores to fill their window.
pub open spec fn is_ranked(cfg: VpinEngineConfig, rs: Seq<VpinReading>, i: int) -> bool {
    &&& rs[i].vpin is Some
    &&& cfg.cdf_window matches Some(window) && known_vpins(rs.take(i + 1)).len() >= window
}

/// How an engine warms up: the deviation is known once its window is full, and
/// only buckets that close from then on enter the averaging window.
proof fn lemma_warmup<A: Fn(Op) -> Double>(a: A, cfg: VpinEngineConfig, trades: Seq<Trade>)
    requires
        cfg.sigma_window >= 1,
        cfg.vpin_window >= 1,
        cfg.cdf_window matches Some(window) ==> window >= 1,
    ensures
        ({
            let s = engine_at(a, cfg, trades);
            let closed = readings(a, cfg, trades).len();
            &&& s.sigma.window == cfg.sigma_window
            &&& s.vpin_window == cfg.vpin_window
            &&& s.sigma.samples.len() == (if closed <= cfg.sigma_window {
                closed
            } else {
                cfg.sigma_window as nat
            })
            &&& s.sigma.current is Some ==> closed >= cfg.sigma_window
            &&& s.imbalances.len() > 0 ==> s.imbalances.len() + cfg.sigma_window <= closed
            &&& s.cdf is Some <==> cfg.cdf_window is Some
            &&& s.cdf matches Some(c) ==> {
                let scored = known_vpins(readings(a, cfg, trades)).len();
                let window = cfg.cdf_window->0 as nat;
                &&& c.window == window
                &&& c.values.len() == (if scored <= window {
                    scored
                } else {
                    window
                })
            }
            &&& s.ci is Some <==> cfg.confidence_interval is Some
        }),
        forall|i: int|
            0 <= i < readings(a, cfg, trades).len() ==> {
                let r = #[trigger] readings(a, cfg, trades)[i];
                &&& i + 1 < cfg.sigma_window + cfg.vpin_window ==> r.vpin is None
                &&& r.vpin_ci_low is Some <==> r.vpin is Some && cfg.confidence_interval is Some
                &&& r.vpin_ci_high is Some <==> r.vpin is Some && cfg.confidence_interval is Some
                &&& r.vpin_cdf is Some <==> is_ranked(cfg, readings(a, cfg, trades), i)
            },
    decreases trades.len(),
{
    if trades.len() > 0 {
        let init = trades.drop_last();
        lemma_warmup(a, cfg, init);
        let before = readings(a, cfg, init);
        if readings(a, cfg, trades).len() > before.len() {
            assert(readings(a, cfg, trades).drop_last() =~= before);
        }
        assert forall|i: int| 0 <= i < readings(a, cfg, trades).len() implies {
            let r = #[trigger] readings(a, cfg, trades)[i];
            &&& i + 1 < cfg.sigma_window + cfg.vpin_window ==> r.vpin is None
            &&& r.vpin_ci_low is Some <==> r.vpin is Some && cfg.confidence_interval is Some
            &&& r.vpin_ci_high is Some <==> r.vpin is Some && cfg.confidence_interval is Some
            &&& r.vpin_cdf is Some <==> is_ranked(cfg, readings(a, cfg, trades), i)
        } by {
            if i < before.len() {
                assert(readings(a, cfg, trades)[i] == before[i]);
                assert(readings(a, cfg, trades).take(i + 1) =~= before.take(i + 1));
            } else {
                assert(readings(a, cfg, trades).take(i + 1) =~= readings(a, cfg, trades));
            }
        }
    }
}

/// Which parts a reading has: no score before the deviation's window and the
/// averaging window have both filled up, an interval exactly where there is a
/// score and one is configured, and a rank exactly where there is a score, one
/// is configured and its window has filled up with scores.
pub proof fn law_readings_have_their_parts_in_time<A: Fn(Op) -> Double>(
    a: A,
    cfg: VpinEngineConfig,
    trades: Seq<Trade>,
)
    requires
        config_error(cfg) is None,
        room_throughout(a, cfg.bucket_volume, trades),
    ensures
        forall|i: int|
            0 <= i < readings(a, cfg, trades).len() ==> {
                let r = #[trigger] readings(a, cfg, trades)[i];
                &&& r.bucket_id + 1 < cfg.sigma_window + cfg.vpin_window ==> r.vpin is None
                &&& r.vpin_ci_low is Some <==> r.vpin is Some && cfg.confidence_interval is Some
                &&& r.vpin_ci_high is Some <==> r.vpin is Some && cfg.confidence_interval is Some
                &&& r.vpin_cdf is Some <==> is_ranked(cfg, readings(a, cfg, trades), i)
            },
{
    lemma_warmup(a, cfg, trades);
    law_bucket_ids_count_up(a, cfg, trades);
}

/// Replays a tape through an engine of one configuration and describes what it
/// read.
pub fn calibrate_one<A: Fn(Op) -> Double>(
    arith: &A,
    trades: &Vec<Trade>,
    bucket_volume: Double,
    sigma_window: usize,
    vpin_window: usize,
    cdf_window: Option<usize>,
    bvc: BvcStats,
) -> (r: Result<Stats, VpinError>)
    requires
        is_unit(*arith),
        config_error(point_config(bucket_volume, sigma_window, vpin_window, cdf_window)) is None
            ==> room_throughout(*arith, bucket_volume, trades@),
    ensures
        r == point_outcome(
            *arith,
            trades@,
            point_config(bucket_volume, sigma_window, vpin_window, cdf_window),
            bvc,
        ),
{
    let cfg: VpinEngineConfig = VpinEngineConfig {
        bucket_volume,
        sigma_window,
        vpin_window,
        cdf_window,
        confidence_interval: None,
    };
    let mut engine: VpinEngine = match VpinEngine::new(cfg) {
        Ok(e) => e,
        Err(e) => {
            return Err(e);
        },
    };
    let mut total_buckets: u64 = 0;
    let mut vpins: Vec<Double> = Vec::new();
    let mut times: Vec<u64> = Vec::new();
    let mut i: usize = 0;
    assert(trades@.take(0) =~= Seq::empty());
    assert(times@ =~= close_times(readings(*arith, cfg, trades@.take(0))));
    while i < trades.len()
        invariant
            i <= trades@.len(),
            is_unit(*arith),
            cfg == point_config(bucket_volume, sigma_window, vpin_window, cdf_window),
            room_throughout(*arith, bucket_volume, trades@),
            engine.wf(),
            engine@ == engine_at(*arith, cfg, trades@.take(i as int)),
            total_buckets == readings(*arith, cfg, trades@.take(i as int)).len(),
            total_buckets <= i,
            times@ == close_times(readings(*arith, cfg, trades@.take(i as int))),
            vpins@ == known_vpins(readings(*arith, cfg, trades@.take(i as int))),
        decreases trades.len() - i,
    {
        let ghost before = readings(*arith, cfg, trades@.take(i as int));
        proof {
            assert(trades@.take(i + 1).drop_last() =~= trades@.take(i as int));
            lemma_engine_bucketer(*arith, cfg, trades@.take(i as int));
            lemma_readings_len(*arith, cfg, trades@.take(i + 1));
            assert(bucket_has_room(
                bucketer_at(*arith, bucket_volume, trades@.take(i as int)),
            ));
        }
        let t: Trade = trades[i];
        match engine.push_trade(arith, t.price, t.volume, t.ts_ns) {
            None => {},
            Some(reading) => {
                assert(before.push(reading).drop_last() =~= before);
                assert(close_times(before.push(reading)) =~= close_times(before).push(
                    reading.ts_close_ns,
                ));
                total_buckets = total_buckets + 1;
                times.push(reading.ts_close_ns);
                if let Some(v) = reading.vpin {
                    vpins.push(v);
                }
            },
        }
        i += 1;
    }
    assert(trades@.take(i as int) =~= trades@);
    let (vpin_mean, vpin_min, vpin_max, vpin_stddev): (Double, Double, Double, Double) = summarize(
        arith,
        &vpins,
    );
    Ok(
        Stats {
            bucket_volume,
            sigma_window,
            vpin_window,
            total_buckets,
            non_warmup_readings: vpins.len() as u64,
            vpin_mean,
            vpin_min,
            vpin_max,
            vpin_stddev,
            avg_bucket_interval_ms: mean_interval_ms(arith, &times),
            bvc_accuracy: bvc.accuracy,
            bvc_mean_abs_error: bvc.mean_abs_error,
            bvc_compared: bvc.compared,
            bvc_accuracy_p_value: Double { bits: NAN },
        },
    )
}

/// The sampling variance of a proportion `p` over `n` trials.
pub open spec fn proportion_variance<A: Fn(Op) -> Double>(a: A, p: Double, n: u64) -> Double {
    eval(
        a,
        Op::Div(
            eval(a, Op::Mul(p, eval(a, Op::Sub(Double { bits: ONE }, p)))),
            eval(a, Op::Of(n)),
        ),
    )
}

/// The two-tailed p-value of a two-proportion z-test with unpooled variance:
/// NaN where either side has too few trials or no proportion. Where neither
/// proportion varies at all, no noise explains a gap: 1 if there is none, and
/// 0 if there is one.
pub open spec fn p_value<A: Fn(Op) -> Double>(
    a: A,
    p1: Double,
    n1: u64,
    p2: Double,
    n2: u64,
) -> Double {
    let se = eval(
        a,
        Op::Sqrt(
            eval(a, Op::Add(proportion_variance(a, p1, n1), proportion_variance(a, p2, n2))),
        ),
    );
    let z = eval(a, Op::Div(eval(a, Op::Sub(p1, p2)), se));
    if n1 < MIN_COMPARED || n2 < MIN_COMPARED || p1.nan() || p2.nan() {
        Double { bits: NAN }
    } else if se.equal(Double { bits: ZERO }) {
        if p1.equal(p2) {
            Double { bits: ONE }
        } else {
            Double { bits: ZERO }
        }
    } else {
        eval(
            a,
            Op::Mul(
                Double { bits: TWO },
                eval(a, Op::Sub(Double { bits: ONE }, normal_cdf(a, z.absolute()))),
            ),
        )
    }
}

fn variance_of<A: Fn(Op) -> Double>(arith: &A, p: Double, n: u64) -> (r: Double)
    requires
        is_unit(*arith),
    ensures
        r == proportion_variance(*arith, p, n),
{
    let rest: Double = arith(Op::Sub(Double { bits: ONE }, p));
    let product: Double = arith(Op::Mul(p, rest));
    let count: Double = arith(Op::Of(n));
    arith(Op::Div(product, count))
}

/// Is the proportion `p1` over `n1` trials really different from `p2` over
/// `n2`, or does sampling noise explain the gap?
pub fn two_proportion_p_value<A: Fn(Op) -> Double>(
    arith: &A,
    p1: Double,
    n1: u64,
    p2: Double,
    n2: u64,
) -> (r: Double)
    requires
        is_unit(*arith),
    ensures
        r == p_value(*arith, p1, n1, p2, n2),
{
    if n1 < MIN_COMPARED || n2 < MIN_COMPARED || p1.is_nan() || p2.is_nan() {
        return Double { bits: NAN };
    }
    let v1: Double = variance_of(arith, p1, n1);
    let v2: Double = variance_of(arith, p2, n2);
    let both: Double = arith(Op::Add(v1, v2));
    let se: Double = arith(Op::Sqrt(both));
    if se.same(Double { bits: ZERO }) {
        return if p1.same(p2) {
            Double { bits: ONE }
        } else {
            Double { bits: ZERO }
        };
    }
    let gap: Double = arith(Op::Sub(p1, p2));
    let z: Double = arith(Op::Div(gap, se));
    let below: Double = standard_normal_cdf(arith, z.abs());
    let tail: Double = arith(Op::Sub(Double { bits: ONE }, below));
    arith(Op::Mul(Double { bits: TWO }, tail))
}

/// A captured trade is replayed with its price as the price and its quantity as
/// the volume, at the venue's time and with its side; and a point of the sweep
/// runs an engine with the point's own parameters and no interval.
pub proof fn law_a_point_replays_the_tape<A: Fn(Op) -> Double>(
    a: A,
    t: NormalizedTrade,
    bucket_volume: Double,
    sigma_window: usize,
    vpin_window: usize,
    cdf_window: Option<usize>,
)
    ensures
        ({
            let u = replayed(a, t);
            let c = point_config(bucket_volume, sigma_window, vpin_window, cdf_window);
            &&& u.price == scaled(a, t.price.raw)
            &&& u.volume == scaled(a, t.qty.raw)
            &&& u.ts_ns == t.ts_exchange_ns
            &&& u.taker_side == t.taker_side
            &&& c.bucket_volume == bucket_volume
            &&& c.sigma_window == sigma_window
            &&& c.vpin_window == vpin_window
            &&& c.cdf_window == cdf_window
            &&& c.confidence_interval is None
        }),
{
}

/// A tape is replayed trade by trade from a fresh start. One trade more goes
/// through the engine, the bucketer and the comparison as they stand after the
/// trades before it, with its own price, volume and time; the readings so far
/// stay, and its own, if it gives one, comes behind them.
pub proof fn law_a_tape_is_replayed_in_order<A: Fn(Op) -> Double>(
    a: A,
    cfg: VpinEngineConfig,
    trades: Seq<Trade>,
    t: Trade,
)
    ensures
        ({
            let (volume, window) = (cfg.bucket_volume, cfg.sigma_window as nat);
            let more = trades.push(t);
            let none = Seq::<Trade>::empty();
            let engine = engine_at(a, cfg, trades);
            let comparison = bvc_at(a, volume, window, none);
            let rs = readings(a, cfg, trades);
            &&& engine_at(a, cfg, none) == fresh_engine(cfg)
            &&& engine_at(a, cfg, more) == engine_after(a, engine, t.price, t.volume, t.ts_ns)
            &&& readings(a, cfg, none).len() == 0
            &&& readings(a, cfg, more) == (match reading_at(
                a,
                engine,
                t.price,
                t.volume,
                t.ts_ns,
            ) {
                Some(r) => rs.push(r),
                None => rs,
            })
            &&& bucketer_at(a, volume, none) == fresh_bucketer(volume)
            &&& bucketer_at(a, volume, more) == bucket_after(
                a,
                bucketer_at(a, volume, trades),
                t.price,
                t.volume,
            )
            &&& comparison.bucketer == fresh_bucketer(volume)
            &&& comparison.sigma == fresh_sigma(window)
            &&& comparison.buy_volume == (Double { bits: ZERO })
            &&& comparison.sell_volume == (Double { bits: ZERO })
            &&& comparison.correct == 0
            &&& comparison.errors.len() == 0
            &&& bvc_at(a, volume, window, more) == bvc_after(
                a,
                bvc_at(a, volume, window, trades),
                t,
            )
        }),
{
    assert(trades.push(t).drop_last() =~= trades);
}

} // verus!
