//! What the service keeps per stream: counters for its endpoints, and the last
//! message, for subscribers that arrive in the middle of a session.

use crate::config::{stream_key, StreamConfig};
use crate::protocol::{MessageView, ServerMessage};
use vstd::prelude::*;
use vstd::string::*;

verus! {

/// Counters of one stream, read on demand by the health endpoints.
#[derive(Clone, Copy, Debug, PartialEq, Eq, Structural)]
pub struct StreamHealth {
    pub trades_processed: u64,
    pub readings_emitted: u64,
    pub last_trade_ts_ns: Option<u64>,
    pub last_heartbeat_ts_ns: Option<u64>,
    /// False before the worker runs and once its trades have ended.
    pub worker_alive: bool,
}

impl Default for StreamHealth {
    fn default() -> (r: Self)
        ensures
            r == (StreamHealth {
                trades_processed: 0,
                readings_emitted: 0,
                last_trade_ts_ns: None,
                last_heartbeat_ts_ns: None,
                worker_alive: false,
            }),
    {
        StreamHealth {
            trades_processed: 0,
            readings_emitted: 0,
            last_trade_ts_ns: None,
            last_heartbeat_ts_ns: None,
            worker_alive: false,
        }
    }
}

/// One stream.
pub struct StreamEntry {
    pub exchange: String,
    pub symbol: String,
    /// The message published last. Sent to a new subscriber at once, so that
    /// it does not wait for the next bucket or heartbeat.
    pub last_message: Option<ServerMessage>,
    pub health: StreamHealth,
}

/// What the last message says.
pub open spec fn last_view(m: Option<ServerMessage>) -> Option<MessageView> {
    match m {
        Some(m) => Some(m@),
        None => None,
    }
}

impl StreamEntry {
    pub fn new(exchange: String, symbol: String) -> (r: Self)
        ensures
            r.exchange == exchange,
            r.symbol == symbol,
            r.last_message is None,
            r.health == (StreamHealth {
                trades_processed: 0,
                readings_emitted: 0,
                last_trade_ts_ns: None,
                last_heartbeat_ts_ns: None,
                worker_alive: false,
            }),
    {
        StreamEntry { exchange, symbol, last_message: None, health: StreamHealth::default() }
    }
}

/// How a configured stream is registered: under its key, as the operator
/// spelled it, with nothing processed and nobody at work yet.
pub fn registration(s: &StreamConfig) -> (r: (String, StreamEntry))
    ensures
        r.0@ == s.key(),
        r.1.exchange@ == s.exchange@,
        r.1.symbol@ == s.symbol@,
        r.1.last_message is None,
        r.1.health == (StreamHealth {
            trades_processed: 0,
            readings_emitted: 0,
            last_trade_ts_ns: None,
            last_heartbeat_ts_ns: None,
            worker_alive: false,
        }),
{
    (
        stream_key(s.exchange.as_str(), s.symbol.as_str()),
        StreamEntry::new(s.exchange.as_str().to_owned(), s.symbol.as_str().to_owned()),
    )
}

} // verus!
