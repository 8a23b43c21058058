//! Volume clock: buckets close on accumulated executed volume, not on wall
//! time.

use crate::double::{eval, is_unit, Double, Op, ZERO};
use crate::error::VpinError;
use vstd::prelude::*;

verus! {

/// One closed bucket, ready for classification.
#[derive(Clone, Copy, Debug, PartialEq, Eq, Structural)]
pub struct ClosedBucket {
    pub bucket_id: u64,
    /// Last trade price minus the last trade price of the previous bucket.
    pub delta_p: Double,
    /// Total volume, the whole closing trade included.
    pub volume: Double,
    pub last_price: Double,
    pub trade_count: u32,
    /// Timestamp of the trade that closed the bucket, in nanoseconds.
    pub ts_close_ns: u64,
}

/// What a bucketer holds.
pub struct BucketState {
    pub target_volume: Double,
    /// The number of buckets closed so far, which is the next bucket's id.
    pub bucket_id: u64,
    /// The volume in the bucket being filled.
    pub acc_volume: Double,
    /// The price that the next price change is measured from: the close of
    /// the previous bucket, or the very first trade's price in the first
    /// bucket; none before any trade.
    pub reference: Option<Double>,
    /// The number of trades in the bucket being filled.
    pub trade_count: u32,
}

/// A bucketer that has seen no trade.
pub open spec fn fresh_bucketer(target_volume: Double) -> BucketState {
    BucketState {
        target_volume,
        bucket_id: 0,
        acc_volume: Double { bits: ZERO },
        reference: None,
        trade_count: 0,
    }
}

/// The price that a trade's price change is measured from.
pub open spec fn reference_price(s: BucketState, price: Double) -> Double {
    match s.reference {
        Some(p) => p,
        None => price,
    }
}

/// The bucket's volume once a trade of `volume` is in.
pub open spec fn filled_volume<A: Fn(Op) -> Double>(a: A, s: BucketState, volume: Double) -> Double {
    eval(a, Op::Add(s.acc_volume, volume))
}

/// The bucket that a trade closes: the one it tips to its target or over it,
/// with the whole trade in.
pub open spec fn bucket_closed<A: Fn(Op) -> Double>(
    a: A,
    s: BucketState,
    price: Double,
    volume: Double,
    ts_ns: u64,
) -> Option<ClosedBucket> {
    if filled_volume(a, s, volume).below(s.target_volume) {
        None
    } else {
        Some(
            ClosedBucket {
                bucket_id: s.bucket_id,
                delta_p: eval(a, Op::Sub(price, reference_price(s, price))),
                volume: filled_volume(a, s, volume),
                last_price: price,
                trade_count: (s.trade_count + 1) as u32,
                ts_close_ns: ts_ns,
            },
        )
    }
}

/// The state after a trade: a closed bucket is followed by an empty one whose
/// price change is measured from this trade's price.
pub open spec fn bucket_after<A: Fn(Op) -> Double>(
    a: A,
    s: BucketState,
    price: Double,
    volume: Double,
) -> BucketState {
    if filled_volume(a, s, volume).below(s.target_volume) {
        BucketState {
            acc_volume: filled_volume(a, s, volume),
            reference: Some(reference_price(s, price)),
            trade_count: (s.trade_count + 1) as u32,
            ..s
        }
    } else {
        BucketState {
            bucket_id: (s.bucket_id + 1) as u64,
            acc_volume: Double { bits: ZERO },
            reference: Some(price),
            trade_count: 0,
            ..s
        }
    }
}

/// Neither counter is at its last value.
pub open spec fn bucket_has_room(s: BucketState) -> bool {
    s.trade_count < u32::MAX && s.bucket_id < u64::MAX
}

/// Accumulates trades into fixed-volume buckets. One instance per symbol and
/// venue.
pub struct VolumeBucketer {
    target_volume: Double,
    bucket_id: u64,
    acc_volume: Double,
    prev_bucket_close_price: Option<Double>,
    trade_count: u32,
}

impl View for VolumeBucketer {
    type V = BucketState;

    closed spec fn view(&self) -> BucketState {
        BucketState {
            target_volume: self.target_volume,
            bucket_id: self.bucket_id,
            acc_volume: self.acc_volume,
            reference: self.prev_bucket_close_price,
            trade_count: self.trade_count,
        }
    }
}

impl VolumeBucketer {
    /// `target_volume` has to be finite and positive: any other bucket size
    /// would divide by zero downstream or never close.
    pub fn new(target_volume: Double) -> (r: Result<Self, VpinError>)
        ensures
            match r {
                Ok(b) => target_volume.finite() && target_volume.positive() && b@
                    == fresh_bucketer(target_volume),
                Err(e) => !(target_volume.finite() && target_volume.positive()) && e
                    == VpinError::InvalidBucketVolume(target_volume),
            },
    {
        if !(target_volume.is_finite() && target_volume.is_positive()) {
            return Err(VpinError::InvalidBucketVolume(target_volume));
        }
        Ok(
            VolumeBucketer {
                target_volume,
                bucket_id: 0,
                acc_volume: Double { bits: ZERO },
                prev_bucket_close_price: None,
                trade_count: 0,
            },
        )
    }

    /// Feeds one trade in, and returns the bucket that it closes, if it does.
    /// The closing trade is never split across two buckets: a print larger
    /// than what the bucket has left closes it above its target, and the next
    /// bucket starts empty.
    pub fn push<A: Fn(Op) -> Double>(
        &mut self,
        arith: &A,
        price: Double,
        volume: Double,
        ts_ns: u64,
    ) -> (r: Option<ClosedBucket>)
        requires
            is_unit(*arith),
            bucket_has_room(old(self)@),
        ensures
            r == bucket_closed(*arith, old(self)@, price, volume, ts_ns),
            final(self)@ == bucket_after(*arith, old(self)@, price, volume),
    {
        let reference: Double = match self.prev_bucket_close_price {
            Some(p) => p,
            None => price,
        };
        let filled: Double = arith(Op::Add(self.acc_volume, volume));
        let count: u32 = self.trade_count + 1;
        if filled.lt(self.target_volume) {
            self.prev_bucket_close_price = Some(reference);
            self.acc_volume = filled;
            self.trade_count = count;
            return None;
        }
        let closed: ClosedBucket = ClosedBucket {
            bucket_id: self.bucket_id,
            delta_p: arith(Op::Sub(price, reference)),
            volume: filled,
            last_price: price,
            trade_count: count,
            ts_close_ns: ts_ns,
        };
        self.bucket_id = self.bucket_id + 1;
        self.acc_volume = Double { bits: ZERO };
        self.trade_count = 0;
        self.prev_bucket_close_price = Some(price);
        Some(closed)
    }

    /// Volume accumulated in the bucket being filled.
    pub fn partial_volume(&self) -> (r: Double)
        ensures
            r == self@.acc_volume,
    {
        self.acc_volume
    }

    pub fn current_bucket_id(&self) -> (r: u64)
        ensures
            r == self@.bucket_id,
    {
        self.bucket_id
    }

    /// Whether both counters can still be advanced.
    pub fn has_room(&self) -> (r: bool)
        ensures
            r == bucket_has_room(self@),
    {
        self.trade_count < u32::MAX && self.bucket_id < u64::MAX
    }
}

/// The bucketer after some more trades, each a price and a volume.
pub open spec fn bucketer_through<A: Fn(Op) -> Double>(
    a: A,
    s: BucketState,
    trades: Seq<(Double, Double)>,
) -> BucketState
    decreases trades.len(),
{
    if trades.len() == 0 {
        s
    } else {
        let before = bucketer_through(a, s, trades.drop_last());
        bucket_after(a, before, trades.last().0, trades.last().1)
    }
}

/// None of the trades closes a bucket.
pub open spec fn none_closes<A: Fn(Op) -> Double>(
    a: A,
    s: BucketState,
    trades: Seq<(Double, Double)>,
) -> bool {
    forall|k: int|
        0 <= k < trades.len() ==> filled_volume(
            a,
            bucketer_through(a, s, #[trigger] trades.take(k)),
            trades[k].1,
        ).below(s.target_volume)
}

/// A closing trade is never split: the bucket closes with all of it, at its
/// target or above, and the next bucket starts empty under the next number.
pub proof fn law_a_closing_trade_is_not_split<A: Fn(Op) -> Double>(
    a: A,
    s: BucketState,
    price: Double,
    volume: Double,
    ts_ns: u64,
)
    requires
        bucket_has_room(s),
    ensures
        bucket_closed(a, s, price, volume, ts_ns) matches Some(closed) ==> {
            let after = bucket_after(a, s, price, volume);
            &&& closed.volume == filled_volume(a, s, volume)
            &&& !closed.volume.below(s.target_volume)
            &&& closed.bucket_id == s.bucket_id
            &&& after.bucket_id == s.bucket_id + 1
            &&& after.acc_volume == (Double { bits: ZERO })
            &&& after.trade_count == 0
        },
        bucket_closed(a, s, price, volume, ts_ns) is None ==> bucket_after(
            a,
            s,
            price,
            volume,
        ).bucket_id == s.bucket_id,
{
}

proof fn lemma_reference_stays<A: Fn(Op) -> Double>(
    a: A,
    s: BucketState,
    trades: Seq<(Double, Double)>,
)
    requires
        s.reference is Some,
        none_closes(a, s, trades),
    ensures
        bucketer_through(a, s, trades).reference == s.reference,
        bucketer_through(a, s, trades).target_volume == s.target_volume,
    decreases trades.len(),
{
    if trades.len() > 0 {
        let init = trades.drop_last();
        assert forall|k: int| 0 <= k < init.len() implies filled_volume(
            a,
            bucketer_through(a, s, #[trigger] init.take(k)),
            init[k].1,
        ).below(s.target_volume) by {
            assert(init.take(k) =~= trades.take(k));
            assert(init[k] == trades[k]);
        }
        lemma_reference_stays(a, s, init);
        assert(trades.take(trades.len() - 1) =~= init);
    }
}

/// Price changes are measured from close to close: whatever trades come in
/// between, the next bucket's change is its closing price minus the closing
/// price of this one.
pub proof fn law_price_changes_run_from_close_to_close<A: Fn(Op) -> Double>(
    a: A,
    s: BucketState,
    price: Double,
    volume: Double,
    ts_ns: u64,
    between: Seq<(Double, Double)>,
    next_price: Double,
    next_volume: Double,
    next_ts_ns: u64,
)
    requires
        bucket_closed(a, s, price, volume, ts_ns) is Some,
        none_closes(a, bucket_after(a, s, price, volume), between),
    ensures
        bucket_closed(
            a,
            bucketer_through(a, bucket_after(a, s, price, volume), between),
            next_price,
            next_volume,
            next_ts_ns,
        ) matches Some(closed) ==> closed.delta_p == eval(a, Op::Sub(next_price, price)),
{
    lemma_reference_stays(a, bucket_after(a, s, price, volume), between);
}

} // verus!
