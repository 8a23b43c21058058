//! What the service and its subscribers say to each other: a subscriber sends
//! one request, and then receives messages.
//!
//! A reading carries the raw score and its rank, not a tier: each consumer
//! sets its own thresholds.

use crate::double::Double;
use vstd::prelude::*;
use vstd::string::*;

verus! {

#[derive(Debug, PartialEq, Eq)]
pub struct SubscribeRequest {
    pub exchange: String,
    pub symbol: String,
}

impl Clone for SubscribeRequest {
    fn clone(&self) -> (r: Self)
        ensures
            r.exchange@ == self.exchange@,
            r.symbol@ == self.symbol@,
    {
        SubscribeRequest {
            exchange: self.exchange.as_str().to_owned(),
            symbol: self.symbol.as_str().to_owned(),
        }
    }
}

#[derive(Debug, PartialEq, Eq)]
pub enum ServerMessage {
    Reading {
        exchange: String,
        symbol: String,
        bucket_id: u64,
        ts_close_ns: u64,
        trades_in_bucket: u32,
        /// None during warmup.
        vpin: Option<Double>,
        vpin_cdf: Option<Double>,
    },
    /// Sent at a fixed interval whether or not there are trades: this, not a
    /// lack of readings, is what tells a quiet market from a dead feed.
    Heartbeat { ts_ns: u64 },
    Error { message: String },
}

/// What a message says.
pub enum MessageView {
    Reading {
        exchange: Seq<char>,
        symbol: Seq<char>,
        bucket_id: u64,
        ts_close_ns: u64,
        trades_in_bucket: u32,
        vpin: Option<Double>,
        vpin_cdf: Option<Double>,
    },
    Heartbeat { ts_ns: u64 },
    Error { message: Seq<char> },
}

impl View for ServerMessage {
    type V = MessageView;

    open spec fn view(&self) -> MessageView {
        match self {
            ServerMessage::Reading {
                exchange,
                symbol,
                bucket_id,
                ts_close_ns,
                trades_in_bucket,
                vpin,
                vpin_cdf,
            } => MessageView::Reading {
                exchange: exchange@,
                symbol: symbol@,
                bucket_id: *bucket_id,
                ts_close_ns: *ts_close_ns,
                trades_in_bucket: *trades_in_bucket,
                vpin: *vpin,
                vpin_cdf: *vpin_cdf,
            },
            ServerMessage::Heartbeat { ts_ns } => MessageView::Heartbeat { ts_ns: *ts_ns },
            ServerMessage::Error { message } => MessageView::Error { message: message@ },
        }
    }
}

impl Clone for ServerMessage {
    fn clone(&self) -> (r: Self)
        ensures
            r@ == self@,
    {
        match self {
            ServerMessage::Reading {
                exchange,
                symbol,
                bucket_id,
                ts_close_ns,
                trades_in_bucket,
                vpin,
                vpin_cdf,
            } => ServerMessage::Reading {
                exchange: exchange.as_str().to_owned(),
                symbol: symbol.as_str().to_owned(),
                bucket_id: *bucket_id,
                ts_close_ns: *ts_close_ns,
                trades_in_bucket: *trades_in_bucket,
                vpin: *vpin,
                vpin_cdf: *vpin_cdf,
            },
            ServerMessage::Heartbeat { ts_ns } => ServerMessage::Heartbeat { ts_ns: *ts_ns },
            ServerMessage::Error { message } => ServerMessage::Error {
                message: message.as_str().to_owned(),
            },
        }
    }
}

} // verus!
