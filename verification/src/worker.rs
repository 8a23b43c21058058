//! One stream's worker: trades go into its engine, readings and heartbeats
//! come out.

use crate::bucket::bucket_has_room;
use crate::calibrate::{scaled, scaled_of};
use crate::double::{is_unit, Double, Op};
use crate::error::VpinError;
use crate::protocol::{MessageView, ServerMessage};
use crate::registry::{last_view, StreamEntry, StreamHealth};
use crate::trade::NormalizedTrade;
use crate::vpin::{
    config_error, engine_after, fresh_engine, reading_at, EngineState, VpinEngine,
    VpinEngineConfig, VpinReading,
};
use vstd::prelude::*;
use vstd::string::*;

verus! {

/// Owns the engine of one exchange and symbol.
pub struct Worker {
    exchange: String,
    symbol: String,
    engine: VpinEngine,
}

/// The reading that a trade gives a worker's engine, if it closes a bucket.
pub open spec fn trade_reading<A: Fn(Op) -> Double>(
    a: A,
    engine: EngineState,
    t: NormalizedTrade,
) -> Option<VpinReading> {
    reading_at(
        a,
        engine,
        scaled(a, t.price.raw),
        scaled(a, t.qty.raw),
        t.ts_exchange_ns,
    )
}

/// A worker's engine after a trade.
pub open spec fn engine_after_trade<A: Fn(Op) -> Double>(
    a: A,
    engine: EngineState,
    t: NormalizedTrade,
) -> EngineState {
    engine_after(
        a,
        engine,
        scaled(a, t.price.raw),
        scaled(a, t.qty.raw),
        t.ts_exchange_ns,
    )
}

/// The message that tells of a reading. It leaves the interval out.
pub open spec fn reading_message(
    exchange: Seq<char>,
    symbol: Seq<char>,
    r: VpinReading,
) -> MessageView {
    MessageView::Reading {
        exchange,
        symbol,
        bucket_id: r.bucket_id,
        ts_close_ns: r.ts_close_ns,
        trades_in_bucket: r.trades_in_bucket,
        vpin: r.vpin,
        vpin_cdf: r.vpin_cdf,
    }
}

/// The counters after a trade.
pub open spec fn health_after_trade(h: StreamHealth, ts_ns: u64, read: bool) -> StreamHealth {
    StreamHealth {
        trades_processed: (h.trades_processed + 1) as u64,
        last_trade_ts_ns: Some(ts_ns),
        readings_emitted: if read {
            (h.readings_emitted + 1) as u64
        } else {
            h.readings_emitted
        },
        ..h
    }
}

/// Neither counter is at its last value.
pub open spec fn health_has_room(h: StreamHealth) -> bool {
    h.trades_processed < u64::MAX && h.readings_emitted < u64::MAX
}

impl Worker {
    pub closed spec fn exchange(&self) -> Seq<char> {
        self.exchange@
    }

    pub closed spec fn symbol(&self) -> Seq<char> {
        self.symbol@
    }

    pub closed spec fn engine(&self) -> EngineState {
        self.engine@
    }

    pub closed spec fn wf(&self) -> bool {
        self.engine.wf()
    }

    /// A worker with a fresh engine; its stream counts as alive from now on.
    pub fn new(
        exchange: String,
        symbol: String,
        cfg: VpinEngineConfig,
        entry: &mut StreamEntry,
    ) -> (r: Result<Self, VpinError>)
        ensures
            match r {
                Ok(w) => {
                    &&& config_error(cfg) is None
                    &&& w.wf()
                    &&& w.exchange() == exchange@
                    &&& w.symbol() == symbol@
                    &&& w.engine() == fresh_engine(cfg)
                    &&& *final(entry) == (StreamEntry {
                        health: StreamHealth { worker_alive: true, ..old(entry).health },
                        ..*old(entry)
                    })
                },
                Err(e) => config_error(cfg) == Some(e) && *final(entry) == *old(entry),
            },
    {
        match VpinEngine::new(cfg) {
            Err(e) => Err(e),
            Ok(engine) => {
                entry.health.worker_alive = true;
                Ok(Worker { exchange, symbol, engine })
            },
        }
    }

    /// Whether the engine's and the stream's counters can still be advanced.
    pub fn has_room(&self, entry: &StreamEntry) -> (r: bool)
        ensures
            r == (bucket_has_room(self.engine().bucketer) && health_has_room(entry.health)),
    {
        self.engine.has_room() && entry.health.trades_processed < u64::MAX
            && entry.health.readings_emitted < u64::MAX
    }

    /// Takes a trade in. Where it closes a bucket, the message to broadcast is
    /// returned, after it has been recorded as the stream's last one: a
    /// subscriber that arrives in between misses it on neither path.
    pub fn on_trade<A: Fn(Op) -> Double>(
        &mut self,
        arith: &A,
        trade: &NormalizedTrade,
        entry: &mut StreamEntry,
    ) -> (r: Option<ServerMessage>)
        requires
            is_unit(*arith),
            old(self).wf(),
            bucket_has_room(old(self).engine().bucketer),
            health_has_room(old(entry).health),
        ensures
            final(self).wf(),
            final(self).exchange() == old(self).exchange(),
            final(self).symbol() == old(self).symbol(),
            final(self).engine() == engine_after_trade(*arith, old(self).engine(), *trade),
            final(entry).exchange == old(entry).exchange,
            final(entry).symbol == old(entry).symbol,
            ({
                let reading = trade_reading(*arith, old(self).engine(), *trade);
                &&& final(entry).health == health_after_trade(
                    old(entry).health,
                    trade.ts_exchange_ns,
                    reading is Some,
                )
                &&& match reading {
                    None => r is None && final(entry).last_message == old(entry).last_message,
                    Some(reading) => {
                        let m = reading_message(
                            old(self).exchange(),
                            old(self).symbol(),
                            reading,
                        );
                        last_view(r) == Some(m) && last_view(final(entry).last_message) == Some(m)
                    },
                }
            }),
    {
        entry.health.trades_processed = entry.health.trades_processed + 1;
        entry.health.last_trade_ts_ns = Some(trade.ts_exchange_ns);
        let price: Double = scaled_of(arith, trade.price.raw());
        let qty: Double = scaled_of(arith, trade.qty.raw());
        match self.engine.push_trade(arith, price, qty, trade.ts_exchange_ns) {
            None => None,
            Some(reading) => {
                let message: ServerMessage = ServerMessage::Reading {
                    exchange: self.exchange.as_str().to_owned(),
                    symbol: self.symbol.as_str().to_owned(),
                    bucket_id: reading.bucket_id,
                    ts_close_ns: reading.ts_close_ns,
                    trades_in_bucket: reading.trades_in_bucket,
                    vpin: reading.vpin,
                    vpin_cdf: reading.vpin_cdf,
                };
                entry.last_message = Some(message.clone());
                entry.health.readings_emitted = entry.health.readings_emitted + 1;
                Some(message)
            },
        }
    }

    /// The heartbeat that is due, recorded as the stream's last message.
    pub fn on_heartbeat(&self, ts_ns: u64, entry: &mut StreamEntry) -> (r: ServerMessage)
        ensures
            r@ == (MessageView::Heartbeat { ts_ns }),
            last_view(final(entry).last_message) == Some(MessageView::Heartbeat { ts_ns }),
            final(entry).exchange == old(entry).exchange,
            final(entry).symbol == old(entry).symbol,
            final(entry).health == (StreamHealth {
                last_heartbeat_ts_ns: Some(ts_ns),
                ..old(entry).health
            }),
    {
        entry.last_message = Some(ServerMessage::Heartbeat { ts_ns });
        entry.health.last_heartbeat_ts_ns = Some(ts_ns);
        ServerMessage::Heartbeat { ts_ns }
    }

    /// The trades have ended: the stream counts as dead.
    pub fn on_closed(&self, entry: &mut StreamEntry)
        ensures
            *final(entry) == (StreamEntry {
                health: StreamHealth { worker_alive: false, ..old(entry).health },
                ..*old(entry)
            }),
    {
        entry.health.worker_alive = false;
    }
}

/// A trade enters the engine with its price as the price and its quantity as the
/// volume, both in units of 1e-8, at the venue's time; the engine's reading is
/// handed on under the stream's names, with nothing changed but that the
/// interval stays behind.
pub proof fn law_a_message_is_the_reading<A: Fn(Op) -> Double>(
    a: A,
    engine: EngineState,
    t: NormalizedTrade,
    exchange: Seq<char>,
    symbol: Seq<char>,
)
    ensures
        ({
            let price = scaled(a, t.price.raw);
            let volume = scaled(a, t.qty.raw);
            &&& trade_reading(a, engine, t) == reading_at(
                a,
                engine,
                price,
                volume,
                t.ts_exchange_ns,
            )
            &&& engine_after_trade(a, engine, t) == engine_after(
                a,
                engine,
                price,
                volume,
                t.ts_exchange_ns,
            )
            &&& reading_at(a, engine, price, volume, t.ts_exchange_ns) matches Some(r)
                ==> reading_message(exchange, symbol, r) == (MessageView::Reading {
                exchange,
                symbol,
                bucket_id: r.bucket_id,
                ts_close_ns: r.ts_close_ns,
                trades_in_bucket: r.trades_in_bucket,
                vpin: r.vpin,
                vpin_cdf: r.vpin_cdf,
            })
        }),
{
}

/// Every trade counts, a reading counts when there is one, and the last trade's
/// time is kept; a trade changes nothing else of a stream's health.
pub proof fn law_every_trade_counts(h: StreamHealth, ts_ns: u64, read: bool)
    requires
        h.trades_processed < u64::MAX,
        h.readings_emitted < u64::MAX,
    ensures
        ({
            let after = health_after_trade(h, ts_ns, read);
            &&& after.trades_processed == h.trades_processed + 1
            &&& after.readings_emitted == h.readings_emitted + (if read {
                1int
            } else {
                0
            })
            &&& after.last_trade_ts_ns == Some(ts_ns)
            &&& after.last_heartbeat_ts_ns == h.last_heartbeat_ts_ns
            &&& after.worker_alive == h.worker_alive
        }),
{
}

} // verus!
