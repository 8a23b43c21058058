//! The streaming VPIN estimator: volume buckets, the rolling deviation of
//! their price changes, the rolling order imbalance, its percentile rank and
//! its bootstrap interval.

use crate::bootstrap::{bootstrap_ci, interval, ratio, ratio_of, ConfidenceIntervalConfig};
use crate::bucket::{
    bucket_after, bucket_closed, bucket_has_room, fresh_bucketer, BucketState, ClosedBucket,
    VolumeBucketer,
};
use crate::bvc::{classifiable, classify, sides};
use crate::double::{eval, is_unit, sample_std, sample_std_of, Double, Op, ONE, ZERO};
use crate::error::VpinError;
use crate::rng::{state_after, SplitMix64};
use crate::window::{slide, RollingWindow};
use vstd::prelude::*;

verus! {

/// What a rolling deviation holds: the window's length, the samples in it,
/// oldest first, and the deviation of a full window.
pub struct SigmaState {
    pub window: nat,
    pub samples: Seq<Double>,
    pub current: Option<Double>,
}

/// The deviation of the samples, once there are enough of them to fill the
/// window.
pub open spec fn sigma_of<A: Fn(Op) -> Double>(a: A, window: nat, samples: Seq<Double>) -> Option<
    Double,
> {
    if samples.len() == window {
        Some(sample_std(a, samples))
    } else {
        None
    }
}

pub open spec fn sigma_after<A: Fn(Op) -> Double>(a: A, s: SigmaState, x: Double) -> SigmaState {
    let samples = slide(s.window, s.samples, x);
    SigmaState { window: s.window, samples, current: sigma_of(a, s.window, samples) }
}

pub open spec fn fresh_sigma(window: nat) -> SigmaState {
    SigmaState { window, samples: Seq::empty(), current: None }
}

/// Rolling sample standard deviation of bucket-to-bucket price changes, none
/// until the window is completely full. Recomputed from the window at each
/// push: it runs once per closed bucket, and a running sum would drift.
pub struct RollingSigma {
    buf: RollingWindow<Double>,
    current: Option<Double>,
}

impl View for RollingSigma {
    type V = SigmaState;

    closed spec fn view(&self) -> SigmaState {
        SigmaState { window: self.buf.cap(), samples: self.buf@, current: self.current }
    }
}

impl RollingSigma {
    /// At least two samples fit, never more than fit are held, and there is a
    /// deviation exactly when the window is full.
    pub closed spec fn wf(&self) -> bool {
        &&& self.buf.wf()
        &&& self.buf.cap() >= 2
        &&& self.current is Some <==> self.buf@.len() == self.buf.cap()
    }

    pub fn new(window: usize) -> (r: Result<Self, VpinError>)
        ensures
            match r {
                Ok(s) => window >= 2 && s.wf() && s@ == fresh_sigma(window as nat),
                Err(e) => window < 2 && e == (VpinError::InvalidWindow { got: window, min: 2 }),
            },
    {
        if window < 2 {
            return Err(VpinError::InvalidWindow { got: window, min: 2 });
        }
        let s = RollingSigma { buf: RollingWindow::new(window), current: None };
        assert(s@.samples =~= Seq::empty());
        Ok(s)
    }

    /// The deviation of the samples so far, none until the window fills. Does
    /// not advance anything: a caller asks what it is before feeding in the
    /// sample that shifts it.
    pub fn current(&self) -> (r: Option<Double>)
        ensures
            r == self@.current,
    {
        self.current
    }

    pub fn push<A: Fn(Op) -> Double>(&mut self, arith: &A, delta_p: Double) -> (r: Option<Double>)
        requires
            is_unit(*arith),
            old(self).wf(),
        ensures
            final(self).wf(),
            final(self)@ == sigma_after(*arith, old(self)@, delta_p),
            r == final(self)@.current,
    {
        self.buf.push(delta_p);
        if self.buf.is_full() {
            let samples: Vec<Double> = self.buf.to_vec();
            self.current = Some(sample_std_of(arith, &samples));
        } else {
            self.current = None;
        }
        self.current
    }

    /// Never more samples than fit; a deviation exactly when they fill the
    /// window.
    pub proof fn law_a_deviation_needs_a_full_window(&self)
        requires
            self.wf(),
        ensures
            self@.window >= 2,
            self@.samples.len() <= self@.window,
            self@.current is Some <==> self@.samples.len() == self@.window,
    {
    }
}

/// How many of the values are at most `value`.
pub open spec fn count_at_most(values: Seq<Double>, value: Double) -> nat {
    values.filter(|v: Double| v.at_most(value)).len()
}

/// The rank of `value` among the values: the fraction of them at most it.
pub open spec fn rank<A: Fn(Op) -> Double>(a: A, values: Seq<Double>, value: Double) -> Double {
    eval(
        a,
        Op::Div(
            eval(a, Op::Of(count_at_most(values, value) as u64)),
            eval(a, Op::Of(values.len() as u64)),
        ),
    )
}

/// The fraction of the values that are at most `value`.
pub fn rank_of<A: Fn(Op) -> Double>(arith: &A, values: &Vec<Double>, value: Double) -> (r: Double)
    requires
        is_unit(*arith),
    ensures
        r == rank(*arith, values@, value),
{
    let mut count: usize = 0;
    let mut i: usize = 0;
    let ghost keep = |v: Double| v.at_most(value);
    assert(values@.take(0).filter(keep).len() == 0) by {
        reveal(Seq::filter);
    }
    while i < values.len()
        invariant
            i <= values@.len(),
            count <= i,
            keep == (|v: Double| v.at_most(value)),
            count == values@.take(i as int).filter(keep).len(),
        decreases values.len() - i,
    {
        proof {
            assert(values@.take(i + 1).drop_last() =~= values@.take(i as int));
            reveal(Seq::filter);
        }
        if values[i].le(value) {
            count += 1;
        }
        i += 1;
    }
    assert(values@.take(i as int) =~= values@);
    let above: Double = arith(Op::Of(count as u64));
    let below: Double = arith(Op::Of(values.len() as u64));
    arith(Op::Div(above, below))
}

/// What a rolling rank holds: the window's length and the values in it.
pub struct CdfState {
    pub window: nat,
    pub values: Seq<Double>,
}

pub open spec fn fresh_cdf(window: nat) -> CdfState {
    CdfState { window, values: Seq::empty() }
}

pub open spec fn cdf_after(s: CdfState, value: Double) -> CdfState {
    CdfState { window: s.window, values: slide(s.window, s.values, value) }
}

/// The rank of a value among the last ones, itself included, once the window
/// is full.
pub open spec fn cdf_rank<A: Fn(Op) -> Double>(a: A, s: CdfState, value: Double) -> Option<Double> {
    let values = cdf_after(s, value).values;
    if values.len() == s.window {
        Some(rank(a, values, value))
    } else {
        None
    }
}

/// Percentile rank of the latest value within a rolling window of past
/// values. VPIN's level is not comparable across instruments; its rank is.
pub struct EmpiricalCdf {
    buf: RollingWindow<Double>,
}

impl View for EmpiricalCdf {
    type V = CdfState;

    closed spec fn view(&self) -> CdfState {
        CdfState { window: self.buf.cap(), values: self.buf@ }
    }
}

impl EmpiricalCdf {
    pub closed spec fn wf(&self) -> bool {
        self.buf.wf() && self.buf.cap() >= 2
    }

    pub fn new(window: usize) -> (r: Result<Self, VpinError>)
        ensures
            match r {
                Ok(c) => window >= 2 && c.wf() && c@ == fresh_cdf(window as nat),
                Err(e) => window < 2 && e == (VpinError::InvalidWindow { got: window, min: 2 }),
            },
    {
        if window < 2 {
            return Err(VpinError::InvalidWindow { got: window, min: 2 });
        }
        let c = EmpiricalCdf { buf: RollingWindow::new(window) };
        assert(c@.values =~= Seq::empty());
        Ok(c)
    }

    /// Pushes `value` in and returns its rank: the fraction of the window,
    /// itself included, that is at most it. None until the window fills.
    pub fn push<A: Fn(Op) -> Double>(&mut self, arith: &A, value: Double) -> (r: Option<Double>)
        requires
            is_unit(*arith),
            old(self).wf(),
        ensures
            final(self).wf(),
            final(self)@ == cdf_after(old(self)@, value),
            r == cdf_rank(*arith, old(self)@, value),
    {
        self.buf.push(value);
        if !self.buf.is_full() {
            return None;
        }
        let values: Vec<Double> = self.buf.to_vec();
        Some(rank_of(arith, &values, value))
    }
}

/// One VPIN reading, emitted every time a bucket closes.
#[derive(Clone, Copy, Debug, PartialEq, Eq, Structural)]
pub struct VpinReading {
    pub bucket_id: u64,
    pub ts_close_ns: u64,
    pub trades_in_bucket: u32,
    /// None during warmup, until both the sigma window and the averaging
    /// window are full.
    pub vpin: Option<Double>,
    /// Percentile rank of `vpin` within its own rolling history. This, not
    /// `vpin`, is comparable across instruments.
    pub vpin_cdf: Option<Double>,
    /// Bootstrap interval around `vpin`, if one is configured.
    pub vpin_ci_low: Option<Double>,
    pub vpin_ci_high: Option<Double>,
}

#[derive(Clone, Copy, Debug, PartialEq, Eq, Structural)]
pub struct VpinEngineConfig {
    /// Target volume per bucket: a threshold, not a cap.
    pub bucket_volume: Double,
    /// Buckets in the deviation's window.
    pub sigma_window: usize,
    /// Trailing buckets averaged into a reading.
    pub vpin_window: usize,
    /// Readings in the rank's window; none turns the rank off.
    pub cdf_window: Option<usize>,
    /// None turns the interval off.
    pub confidence_interval: Option<ConfidenceIntervalConfig>,
}

/// What an engine holds.
pub struct EngineState {
    pub bucketer: BucketState,
    pub sigma: SigmaState,
    pub vpin_window: nat,
    /// Order imbalance and realized volume of the last classified buckets.
    pub imbalances: Seq<(Double, Double)>,
    pub cdf: Option<CdfState>,
    /// The interval's settings and the state of its number source.
    pub ci: Option<(ConfidenceIntervalConfig, u64)>,
}

/// Order imbalance of a closed bucket: how far its sides lie apart.
pub open spec fn imbalance<A: Fn(Op) -> Double>(
    a: A,
    closed: ClosedBucket,
    sigma: Double,
) -> Double {
    let (buy, sell) = sides(a, closed.delta_p, sigma, closed.volume);
    eval(a, Op::Sub(buy, sell)).absolute()
}

/// Whether a closed bucket is classified: the deviation from before it is
/// known, and standardizes its price change.
pub open spec fn is_classified(sigma: Option<Double>, closed: ClosedBucket) -> bool {
    sigma matches Some(s) && classifiable(closed.delta_p, s)
}

/// The imbalance window after a closed bucket: a classified one enters it.
pub open spec fn imbalances_after<A: Fn(Op) -> Double>(
    a: A,
    s: EngineState,
    closed: ClosedBucket,
) -> Seq<(Double, Double)> {
    if is_classified(s.sigma.current, closed) {
        slide(
            s.vpin_window,
            s.imbalances,
            (imbalance(a, closed, s.sigma.current->0), closed.volume),
        )
    } else {
        s.imbalances
    }
}

/// The VPIN at a closed bucket: total imbalance over total realized volume,
/// once the bucket is classified and the window full.
pub open spec fn vpin_at<A: Fn(Op) -> Double>(a: A, s: EngineState, closed: ClosedBucket) -> Option<
    Double,
> {
    let window = imbalances_after(a, s, closed);
    if is_classified(s.sigma.current, closed) && window.len() == s.vpin_window {
        Some(ratio(a, window))
    } else {
        None
    }
}

/// The rank of the VPIN at a closed bucket.
pub open spec fn vpin_cdf_at<A: Fn(Op) -> Double>(
    a: A,
    s: EngineState,
    closed: ClosedBucket,
) -> Option<Double> {
    match (vpin_at(a, s, closed), s.cdf) {
        (Some(v), Some(c)) => cdf_rank(a, c, v),
        _ => None,
    }
}

/// The interval around the VPIN at a closed bucket.
pub open spec fn vpin_ci_at<A: Fn(Op) -> Double>(
    a: A,
    s: EngineState,
    closed: ClosedBucket,
) -> Option<(Double, Double)> {
    match (vpin_at(a, s, closed), s.ci) {
        (Some(v), Some((cfg, rng))) => Some(interval(a, imbalances_after(a, s, closed), cfg, rng)),
        _ => None,
    }
}

/// The reading that a trade gives: one exactly when it closes a bucket.
pub open spec fn reading_at<A: Fn(Op) -> Double>(
    a: A,
    s: EngineState,
    price: Double,
    volume: Double,
    ts_ns: u64,
) -> Option<VpinReading> {
    match bucket_closed(a, s.bucketer, price, volume, ts_ns) {
        None => None,
        Some(closed) => Some(
            VpinReading {
                bucket_id: closed.bucket_id,
                ts_close_ns: closed.ts_close_ns,
                trades_in_bucket: closed.trade_count,
                vpin: vpin_at(a, s, closed),
                vpin_cdf: vpin_cdf_at(a, s, closed),
                vpin_ci_low: match vpin_ci_at(a, s, closed) {
                    Some((low, high)) => Some(low),
                    None => None,
                },
                vpin_ci_high: match vpin_ci_at(a, s, closed) {
                    Some((low, high)) => Some(high),
                    None => None,
                },
            },
        ),
    }
}

/// The engine after a trade. A closed bucket is classified by the deviation
/// from before it, and only then enters the deviation: its own outcome never
/// leaks into its own classification.
pub open spec fn engine_after<A: Fn(Op) -> Double>(
    a: A,
    s: EngineState,
    price: Double,
    volume: Double,
    ts_ns: u64,
) -> EngineState {
    let bucketer = bucket_after(a, s.bucketer, price, volume);
    match bucket_closed(a, s.bucketer, price, volume, ts_ns) {
        None => EngineState { bucketer, ..s },
        Some(closed) => EngineState {
            bucketer,
            sigma: sigma_after(a, s.sigma, closed.delta_p),
            vpin_window: s.vpin_window,
            imbalances: imbalances_after(a, s, closed),
            cdf: match (vpin_at(a, s, closed), s.cdf) {
                (Some(v), Some(c)) => Some(cdf_after(c, v)),
                _ => s.cdf,
            },
            ci: match (vpin_at(a, s, closed), s.ci) {
                (Some(v), Some((cfg, rng))) => Some(
                    (cfg, state_after(rng, cfg.bootstrap_samples as nat * s.vpin_window)),
                ),
                _ => s.ci,
            },
        },
    }
}

/// The first thing wrong with a configuration, if anything is.
pub open spec fn config_error(cfg: VpinEngineConfig) -> Option<VpinError> {
    if cfg.vpin_window < 1 {
        Some(VpinError::InvalidWindow { got: cfg.vpin_window, min: 1 })
    } else if cfg.confidence_interval matches Some(c) && !((Double { bits: ZERO }).below(
        c.confidence_level,
    ) && c.confidence_level.below(Double { bits: ONE })) {
        Some(VpinError::InvalidConfidenceLevel(cfg.confidence_interval->0.confidence_level))
    } else if cfg.confidence_interval matches Some(c) && c.bootstrap_samples < 2 {
        Some(
            VpinError::InvalidBootstrapSamples {
                got: cfg.confidence_interval->0.bootstrap_samples,
                min: 2,
            },
        )
    } else if !(cfg.bucket_volume.finite() && cfg.bucket_volume.positive()) {
        Some(VpinError::InvalidBucketVolume(cfg.bucket_volume))
    } else if cfg.sigma_window < 2 {
        Some(VpinError::InvalidWindow { got: cfg.sigma_window, min: 2 })
    } else if cfg.cdf_window matches Some(w) && w < 2 {
        Some(VpinError::InvalidWindow { got: cfg.cdf_window->0, min: 2 })
    } else {
        None
    }
}

/// An engine that has seen no trade.
pub open spec fn fresh_engine(cfg: VpinEngineConfig) -> EngineState {
    EngineState {
        bucketer: fresh_bucketer(cfg.bucket_volume),
        sigma: fresh_sigma(cfg.sigma_window as nat),
        vpin_window: cfg.vpin_window as nat,
        imbalances: Seq::empty(),
        cdf: match cfg.cdf_window {
            Some(w) => Some(fresh_cdf(w as nat)),
            None => None,
        },
        ci: match cfg.confidence_interval {
            Some(c) => Some((c, c.seed)),
            None => None,
        },
    }
}

/// Ties the bucketer, the deviation, the classification and the rolling
/// imbalance into one streaming estimator. One instance per symbol and venue.
pub struct VpinEngine {
    bucketer: VolumeBucketer,
    sigma: RollingSigma,
    imbalances: RollingWindow<(Double, Double)>,
    cdf: Option<EmpiricalCdf>,
    ci: Option<(ConfidenceIntervalConfig, SplitMix64)>,
}

impl View for VpinEngine {
    type V = EngineState;

    closed spec fn view(&self) -> EngineState {
        EngineState {
            bucketer: self.bucketer@,
            sigma: self.sigma@,
            vpin_window: self.imbalances.cap(),
            imbalances: self.imbalances@,
            cdf: match self.cdf {
                Some(c) => Some(c@),
                None => None,
            },
            ci: match self.ci {
                Some((cfg, rng)) => Some((cfg, rng@)),
                None => None,
            },
        }
    }
}

impl VpinEngine {
    pub closed spec fn wf(&self) -> bool {
        &&& self.sigma.wf()
        &&& self.imbalances.wf()
        &&& self.cdf matches Some(c) ==> c.wf()
        &&& self.ci matches Some((cfg, rng)) ==> cfg.bootstrap_samples >= 2
    }

    pub fn new(cfg: VpinEngineConfig) -> (r: Result<Self, VpinError>)
        ensures
            match r {
                Ok(e) => config_error(cfg) is None && e.wf() && e@ == fresh_engine(cfg),
                Err(e) => config_error(cfg) == Some(e),
            },
    {
        if cfg.vpin_window < 1 {
            return Err(VpinError::InvalidWindow { got: cfg.vpin_window, min: 1 });
        }
        let ci: Option<(ConfidenceIntervalConfig, SplitMix64)> = match cfg.confidence_interval {
            None => None,
            Some(c) => {
                if !((Double { bits: ZERO }).lt(c.confidence_level) && c.confidence_level.lt(
                    Double { bits: ONE },
                )) {
                    return Err(VpinError::InvalidConfidenceLevel(c.confidence_level));
                }
                if c.bootstrap_samples < 2 {
                    return Err(
                        VpinError::InvalidBootstrapSamples { got: c.bootstrap_samples, min: 2 },
                    );
                }
                Some((c, SplitMix64::new(c.seed)))
            },
        };
        let bucketer: VolumeBucketer = match VolumeBucketer::new(cfg.bucket_volume) {
            Ok(b) => b,
            Err(e) => {
                return Err(e);
            },
        };
        let sigma: RollingSigma = match RollingSigma::new(cfg.sigma_window) {
            Ok(s) => s,
            Err(e) => {
                return Err(e);
            },
        };
        let cdf: Option<EmpiricalCdf> = match cfg.cdf_window {
            None => None,
            Some(w) => match EmpiricalCdf::new(w) {
                Ok(c) => Some(c),
                Err(e) => {
                    return Err(e);
                },
            },
        };
        let engine = VpinEngine {
            bucketer,
            sigma,
            imbalances: RollingWindow::new(cfg.vpin_window),
            cdf,
            ci,
        };
        assert(engine@.imbalances =~= Seq::empty());
        Ok(engine)
    }

    /// Whether the bucketer's counters can still be advanced.
    pub fn has_room(&self) -> (r: bool)
        ensures
            r == bucket_has_room(self@.bucketer),
    {
        self.bucketer.has_room()
    }

    /// Feeds one trade in. Returns a reading when the trade closes a bucket.
    pub fn push_trade<A: Fn(Op) -> Double>(
        &mut self,
        arith: &A,
        price: Double,
        volume: Double,
        ts_ns: u64,
    ) -> (r: Option<VpinReading>)
        requires
            is_unit(*arith),
            old(self).wf(),
            bucket_has_room(old(self)@.bucketer),
        ensures
            final(self).wf(),
            r == reading_at(*arith, old(self)@, price, volume, ts_ns),
            final(self)@ == engine_after(*arith, old(self)@, price, volume, ts_ns),
    {
        let closed: ClosedBucket = match self.bucketer.push(arith, price, volume, ts_ns) {
            Some(c) => c,
            None => {
                return None;
            },
        };
        let sigma_before: Option<Double> = self.sigma.current();
        let vpin: Option<Double> = self.update_vpin(arith, &closed, sigma_before);
        let _ = self.sigma.push(arith, closed.delta_p);
        let mut vpin_cdf: Option<Double> = None;
        let mut vpin_ci_low: Option<Double> = None;
        let mut vpin_ci_high: Option<Double> = None;
        if let Some(v) = vpin {
            if let Some(c) = &mut self.cdf {
                vpin_cdf = c.push(arith, v);
            }
            if let Some(ci) = &mut self.ci {
                let pairs: Vec<(Double, Double)> = self.imbalances.to_vec();
                let (low, high): (Double, Double) = bootstrap_ci(arith, &pairs, &ci.0, &mut ci.1);
                vpin_ci_low = Some(low);
                vpin_ci_high = Some(high);
            }
        }
        Some(
            VpinReading {
                bucket_id: closed.bucket_id,
                ts_close_ns: closed.ts_close_ns,
                trades_in_bucket: closed.trade_count,
                vpin,
                vpin_cdf,
                vpin_ci_low,
                vpin_ci_high,
            },
        )
    }

    /// Enters a closed bucket into the imbalance window and averages it. The
    /// average is taken over the realized volume, which can run above the
    /// target, so that no imbalance can exceed what it is divided by.
    fn update_vpin<A: Fn(Op) -> Double>(
        &mut self,
        arith: &A,
        closed: &ClosedBucket,
        sigma: Option<Double>,
    ) -> (r: Option<Double>)
        requires
            is_unit(*arith),
            old(self).wf(),
            sigma == old(self)@.sigma.current,
        ensures
            final(self).wf(),
            r == vpin_at(*arith, old(self)@, *closed),
            final(self)@ == (EngineState {
                imbalances: imbalances_after(*arith, old(self)@, *closed),
                ..old(self)@
            }),
    {
        let s: Double = match sigma {
            Some(s) => s,
            None => {
                return None;
            },
        };
        let (buy, sell): (Double, Double) = match classify(
            arith,
            closed.delta_p,
            s,
            closed.volume,
        ) {
            Some(sides) => sides,
            None => {
                return None;
            },
        };
        let gap: Double = arith(Op::Sub(buy, sell)).abs();
        self.imbalances.push((gap, closed.volume));
        if !self.imbalances.is_full() {
            return None;
        }
        let pairs: Vec<(Double, Double)> = self.imbalances.to_vec();
        Some(ratio_of(arith, &pairs))
    }
}

/// A bucket is classified by the deviation from before it: what that deviation
/// was computed from, and what the bucket's own price change will make of it,
/// does not show in the reading.
pub proof fn law_a_bucket_does_not_classify_itself<A: Fn(Op) -> Double>(
    a: A,
    s: EngineState,
    samples: Seq<Double>,
    price: Double,
    volume: Double,
    ts_ns: u64,
)
    ensures
        ({
            let other = EngineState { sigma: SigmaState { samples, ..s.sigma }, ..s };
            reading_at(a, other, price, volume, ts_ns) == reading_at(a, s, price, volume, ts_ns)
        }),
        bucket_closed(a, s.bucketer, price, volume, ts_ns) matches Some(closed) ==> engine_after(
            a,
            s,
            price,
            volume,
            ts_ns,
        ).sigma == sigma_after(a, s.sigma, closed.delta_p),
{
}

/// The interval comes with the score and never without it, exactly where one
/// is configured; a rank never comes without a score; and there is no score
/// before the deviation is known.
pub proof fn law_warmup_is_shared<A: Fn(Op) -> Double>(
    a: A,
    s: EngineState,
    price: Double,
    volume: Double,
    ts_ns: u64,
)
    ensures
        reading_at(a, s, price, volume, ts_ns) matches Some(r) ==> {
            &&& r.vpin_ci_low is Some <==> (r.vpin is Some && s.ci is Some)
            &&& r.vpin_ci_high is Some <==> (r.vpin is Some && s.ci is Some)
            &&& r.vpin_cdf is Some ==> r.vpin is Some && s.cdf is Some
            &&& r.vpin is Some ==> s.sigma.current is Some
        },
{
}

/// A configuration is accepted exactly when there is a bucket to average, the
/// bucket volume is finite and positive, the deviation's window and the rank's,
/// if there is one, hold at least two values, and the interval, if there is one,
/// has a level strictly between 0 and 1 and at least two resamples. An engine
/// that is made of it starts empty, its number source at the seed.
pub proof fn law_accepted_configurations(cfg: VpinEngineConfig)
    ensures
        config_error(cfg) is None <==> {
            &&& cfg.vpin_window >= 1
            &&& cfg.sigma_window >= 2
            &&& cfg.bucket_volume.finite()
            &&& (Double { bits: ZERO }).below(cfg.bucket_volume)
            &&& cfg.cdf_window is Some ==> cfg.cdf_window->0 >= 2
            &&& cfg.confidence_interval is Some ==> {
                let c = cfg.confidence_interval->0;
                &&& (Double { bits: ZERO }).below(c.confidence_level)
                &&& c.confidence_level.below(Double { bits: ONE })
                &&& c.bootstrap_samples >= 2
            }
        },
        ({
            let s = fresh_engine(cfg);
            &&& s.bucketer.target_volume == cfg.bucket_volume
            &&& s.bucketer.acc_volume == (Double { bits: ZERO })
            &&& s.bucketer.bucket_id == 0
            &&& s.bucketer.trade_count == 0
            &&& s.bucketer.reference is None
            &&& s.sigma.window == cfg.sigma_window
            &&& s.sigma.samples.len() == 0
            &&& s.sigma.current is None
            &&& s.vpin_window == cfg.vpin_window
            &&& s.imbalances.len() == 0
            &&& s.cdf is Some <==> cfg.cdf_window is Some
            &&& s.cdf is Some ==> s.cdf->0.window == cfg.cdf_window->0 && s.cdf->0.values.len() == 0
            &&& s.ci is Some <==> cfg.confidence_interval is Some
            &&& s.ci matches Some((c, rng)) ==> Some(c) == cfg.confidence_interval && rng == c.seed
        }),
{
}

} // verus!
