//! Real-time order-flow toxicity for perpetual futures: VPIN on a volume clock,
//! by Bulk Volume Classification, with everything around it that decides or
//! computes: the venues' messages, capture and replay, the service's sessions
//! and endpoints, the subscriber's state, and the parameter sweep.
//!
//! Sockets, files, clocks and rounding arithmetic belong to the caller.

pub mod args;
pub mod backoff;
pub mod binance;
pub mod bootstrap;
pub mod bounds;
pub mod bucket;
pub mod bvc;
pub mod bybit;
pub mod calibrate;
pub mod capture;
pub mod config;
pub mod deviation;
pub mod double;
pub mod error;
pub mod feed;
pub mod health;
pub mod hyperliquid;
pub mod ieee;
pub mod intensity;
pub mod json;
pub mod numeral;
pub mod ordering;
pub mod precision;
pub mod protocol;
pub mod ranking;
pub mod registry;
pub mod report;
pub mod repr;
pub mod resampling;
pub mod rng;
pub mod roots;
pub mod score;
pub mod server;
pub mod significance;
pub mod split;
pub mod state;
pub mod statistics;
pub mod sweep;
pub mod symmetry;
pub mod text;
pub mod trade;
pub mod vpin;
pub mod window;
pub mod worker;
