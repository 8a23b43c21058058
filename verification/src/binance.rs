//! Binance USDS-M futures, aggregate trade stream.
//!
//! Aggregate trades are the documented stream for futures: fills of one taker
//! order at one price are merged into one event, which is unit enough for the
//! classification. It is a market-category stream, so the routed endpoint is
//! the one to connect to.

use crate::feed::{normalize, print_outcome, Print, PrintView};
use crate::text::{lower, to_lower, to_upper, upper};
use crate::trade::{padded_name, Exchange, IngestError, NormalizedTrade, Symbol, TakerSide};
use vstd::prelude::*;
use vstd::string::*;
use vstd::utf8::encode_utf8;

verus! {

pub const BASE_URL: &'static str = "wss://fstream.binance.com/market/stream";

/// An aggregate trade as it comes over the wire.
pub struct AggTrade {
    pub trade_time_ms: u64,
    pub price: String,
    pub qty: String,
    /// Whether the buyer was the maker: then the seller crossed the spread.
    pub buyer_is_maker: bool,
}

/// What an aggregate trade says.
pub open spec fn agg_print(t: AggTrade) -> PrintView {
    PrintView {
        time_ms: t.trade_time_ms,
        side: if t.buyer_is_maker {
            TakerSide::Sell
        } else {
            TakerSide::Buy
        },
        price: t.price@,
        qty: t.qty@,
    }
}

/// The endpoint for a symbol in lower case.
pub fn build_url(symbol_lower: &str) -> (r: String)
    ensures
        r@ == BASE_URL@ + "?streams="@ + symbol_lower@ + "@aggTrade"@,
{
    BASE_URL.to_owned().concat("?streams=").concat(symbol_lower).concat("@aggTrade")
}

/// The endpoint for a symbol however it is written: stream names are in lower
/// case.
pub fn stream_url(symbol: &str) -> (r: String)
    ensures
        r@ == BASE_URL@ + "?streams="@ + lower(symbol@) + "@aggTrade"@,
{
    build_url(to_lower(symbol).as_str())
}

/// The name under which a symbol's trades go, however it is written.
pub fn normalized_symbol(symbol: &str) -> (r: Symbol)
    ensures
        r@ == padded_name(encode_utf8(upper(symbol@))),
{
    Symbol::from_bytes(to_upper(symbol).as_str().as_bytes())
}

/// What a message's parsed envelope becomes. Only a trade that is emitted takes
/// the next number.
pub open spec fn agg_outcome(
    parsed: Result<AggTrade, serde_json::Error>,
    symbol: Symbol,
    from: u64,
    to: u64,
    r: Result<NormalizedTrade, IngestError>,
) -> bool {
    match parsed {
        Err(e) => to == from && r == Err::<NormalizedTrade, IngestError>(IngestError::Json(e)),
        Ok(t) => {
            &&& print_outcome(agg_print(t), symbol, Exchange::Binance, from as int, r)
            &&& to == (if r is Ok {
                from + 1
            } else {
                from as int
            })
        },
    }
}

/// Makes a trade of a parsed message.
pub fn convert<C: Fn() -> u64>(
    parsed: Result<AggTrade, serde_json::Error>,
    symbol: Symbol,
    sequence: &mut u64,
    clock: &C,
) -> (r: Result<NormalizedTrade, IngestError>)
    requires
        call_requires(*clock, ()),
        *old(sequence) < u64::MAX,
    ensures
        agg_outcome(parsed, symbol, *old(sequence), *final(sequence), r),
        r matches Ok(t) ==> call_ensures(*clock, (), t.ts_recv_ns),
{
    match parsed {
        Err(e) => Err(IngestError::Json(e)),
        Ok(t) => {
            let print: Print = Print {
                time_ms: t.trade_time_ms,
                side: if t.buyer_is_maker {
                    TakerSide::Sell
                } else {
                    TakerSide::Buy
                },
                price: t.price,
                qty: t.qty,
            };
            let trade: Result<NormalizedTrade, IngestError> = normalize(
                &print,
                symbol,
                Exchange::Binance,
                *sequence,
                clock,
            );
            if trade.is_ok() {
                *sequence = *sequence + 1;
            }
            trade
        },
    }
}

/// Decodes one message: its text is parsed, and what comes of that becomes a
/// trade.
pub fn decode<P: Fn(&str) -> Result<AggTrade, serde_json::Error>, C: Fn() -> u64>(
    text: &str,
    symbol: Symbol,
    sequence: &mut u64,
    parse: &P,
    clock: &C,
) -> (r: Result<NormalizedTrade, IngestError>)
    requires
        call_requires(*parse, (text,)),
        call_requires(*clock, ()),
        *old(sequence) < u64::MAX,
    ensures
        exists|parsed: Result<AggTrade, serde_json::Error>| #[trigger]
            call_ensures(*parse, (text,), parsed) && agg_outcome(
                parsed,
                symbol,
                *old(sequence),
                *final(sequence),
                r,
            ),
        r matches Ok(t) ==> call_ensures(*clock, (), t.ts_recv_ns),
{
    let parsed: Result<AggTrade, serde_json::Error> = parse(text);
    convert(parsed, symbol, sequence, clock)
}

/// The taker of an aggregate trade sells exactly when the buyer is the maker;
/// time, price and quantity are the trade's own.
pub proof fn law_the_taker_is_not_the_maker(t: AggTrade)
    ensures
        agg_print(t).side == TakerSide::Sell <==> t.buyer_is_maker,
        agg_print(t).time_ms == t.trade_time_ms,
        agg_print(t).price == t.price@,
        agg_print(t).qty == t.qty@,
{
}

} // verus!
