//! Hyperliquid perpetuals, trades.
//!
//! A coin is the bare perp symbol. The server closes a connection that it has
//! not heard from for a minute, so a message of the venue's own goes out at a
//! fixed interval whatever the trade flow. Of the sides, `B` is the taker
//! buying and `A` the taker selling.

use crate::feed::{normalize_all, print_views, prints_outcome, Print, PrintView};
use crate::json::{
    entry_trees, json_object, json_string, json_text, members, to_text, JsonTree,
};
use crate::text::same_text;
use crate::trade::{Exchange, IngestError, NormalizedTrade, Symbol, TakerSide};
use vstd::prelude::*;
use vstd::string::*;

verus! {

pub const URL: &'static str = "wss://api.hyperliquid.xyz/ws";

/// Seconds between keep-alives.
pub const KEEP_ALIVE_SECS: u64 = 30;

/// The venue's own keep-alive.
pub const KEEP_ALIVE: &'static str = "{\"method\":\"ping\"}";

/// A trade as it comes over the wire.
pub struct WsTrade {
    pub side: String,
    pub px: String,
    pub sz: String,
    /// In milliseconds.
    pub time: u64,
}

/// A message of a channel, its data still unopened.
pub struct ChannelEnvelope {
    pub channel: String,
    pub data: serde_json::Value,
}

/// What a trade says. `A` is the only documented side besides `B`.
pub open spec fn ws_print(t: WsTrade) -> PrintView {
    PrintView {
        time_ms: t.time,
        side: if t.side@ == "B"@ {
            TakerSide::Buy
        } else {
            TakerSide::Sell
        },
        price: t.px@,
        qty: t.sz@,
    }
}

/// What the trades of a message say.
pub open spec fn ws_prints(data: Seq<WsTrade>) -> Seq<PrintView> {
    data.map_values(|t: WsTrade| ws_print(t))
}

/// What is subscribed to.
pub open spec fn subscription_entries(coin: Seq<char>) -> Seq<(Seq<char>, JsonTree)> {
    seq![("type"@, JsonTree::Text("trades"@)), ("coin"@, JsonTree::Text(coin))]
}

/// The message that subscribes to a coin's trades.
pub open spec fn subscribe_tree(coin: Seq<char>) -> JsonTree {
    JsonTree::Object(
        members(
            seq![
                ("method"@, JsonTree::Text("subscribe"@)),
                ("subscription"@, JsonTree::Object(members(subscription_entries(coin)))),
            ],
        ),
    )
}

/// The text of the message that subscribes to a coin's trades.
pub fn subscribe_message(coin: &str) -> (r: String)
    ensures
        r@ == json_text(subscribe_tree(coin@)),
{
    let mut inner: Vec<(String, serde_json::Value)> = Vec::new();
    inner.push(("type".to_owned(), json_string("trades")));
    inner.push(("coin".to_owned(), json_string(coin)));
    assert(entry_trees(inner@) =~= subscription_entries(coin@));
    let mut es: Vec<(String, serde_json::Value)> = Vec::new();
    es.push(("method".to_owned(), json_string("subscribe")));
    es.push(("subscription".to_owned(), json_object(inner)));
    assert(entry_trees(es@) =~= seq![
        ("method"@, JsonTree::Text("subscribe"@)),
        ("subscription"@, JsonTree::Object(members(subscription_entries(coin@)))),
    ]);
    to_text(&json_object(es))
}

/// What the parsed trades of a message become.
pub open spec fn trades_outcome(
    parsed: Result<Vec<WsTrade>, serde_json::Error>,
    symbol: Symbol,
    from: u64,
    to: u64,
    r: Result<Vec<NormalizedTrade>, IngestError>,
) -> bool {
    match parsed {
        Err(e) => to == from && r == Err::<Vec<NormalizedTrade>, IngestError>(IngestError::Json(e)),
        Ok(trades) => prints_outcome(
            ws_prints(trades@),
            symbol,
            Exchange::Hyperliquid,
            from,
            to,
            r,
        ),
    }
}

/// What a message's parsed envelope becomes, given how trades are parsed:
/// nothing, where the channel is another.
pub open spec fn channel_outcome<T: Fn(serde_json::Value) -> Result<
    Vec<WsTrade>,
    serde_json::Error,
>>(
    envelope: Result<ChannelEnvelope, serde_json::Error>,
    trades_of: T,
    symbol: Symbol,
    from: u64,
    to: u64,
    r: Result<Vec<NormalizedTrade>, IngestError>,
) -> bool {
    match envelope {
        Err(e) => to == from && r == Err::<Vec<NormalizedTrade>, IngestError>(IngestError::Json(e)),
        Ok(c) => if c.channel@ == "trades"@ {
            exists|parsed: Result<Vec<WsTrade>, serde_json::Error>| #[trigger]
                call_ensures(trades_of, (c.data,), parsed) && trades_outcome(
                    parsed,
                    symbol,
                    from,
                    to,
                    r,
                )
        } else {
            r matches Ok(ts) && ts@.len() == 0 && to == from
        },
    }
}

fn prints_of(data: &Vec<WsTrade>) -> (r: Vec<Print>)
    ensures
        print_views(r@) == ws_prints(data@),
{
    let mut out: Vec<Print> = Vec::new();
    let mut i: usize = 0;
    while i < data.len()
        invariant
            i <= data@.len(),
            print_views(out@) =~= ws_prints(data@).take(i as int),
        decreases data.len() - i,
    {
        let t: &WsTrade = &data[i];
        let print: Print = Print {
            time_ms: t.time,
            side: if same_text(t.side.as_str(), "B") {
                TakerSide::Buy
            } else {
                TakerSide::Sell
            },
            price: t.px.as_str().to_owned(),
            qty: t.sz.as_str().to_owned(),
        };
        assert(print@ == ws_print(*t));
        assert(print_views(out@.push(print)) =~= print_views(out@).push(print@));
        out.push(print);
        i += 1;
    }
    assert(print_views(out@) =~= ws_prints(data@));
    out
}

/// Makes trades of the parsed trades of a message.
pub fn convert<C: Fn() -> u64>(
    parsed: Result<Vec<WsTrade>, serde_json::Error>,
    symbol: Symbol,
    sequence: &mut u64,
    clock: &C,
) -> (r: Result<Vec<NormalizedTrade>, IngestError>)
    requires
        call_requires(*clock, ()),
        parsed matches Ok(trades) ==> *old(sequence) + trades@.len() <= u64::MAX,
    ensures
        trades_outcome(parsed, symbol, *old(sequence), *final(sequence), r),
        r matches Ok(ts) ==> forall|i: int|
            0 <= i < ts@.len() ==> call_ensures(*clock, (), (#[trigger] ts@[i]).ts_recv_ns),
{
    match parsed {
        Err(e) => Err(IngestError::Json(e)),
        Ok(trades) => {
            let prints: Vec<Print> = prints_of(&trades);
            assert(print_views(prints@).len() == prints@.len());
            normalize_all(&prints, symbol, Exchange::Hyperliquid, sequence, clock)
        },
    }
}

/// Decodes one message: its envelope is parsed, other channels than the trades
/// yield nothing and take no number, and the trades are parsed and numbered.
pub fn decode<
    P: Fn(&str) -> Result<ChannelEnvelope, serde_json::Error>,
    T: Fn(serde_json::Value) -> Result<Vec<WsTrade>, serde_json::Error>,
    C: Fn() -> u64,
>(
    text: &str,
    symbol: Symbol,
    sequence: &mut u64,
    envelope_of: &P,
    trades_of: &T,
    clock: &C,
) -> (r: Result<Vec<NormalizedTrade>, IngestError>)
    requires
        call_requires(*clock, ()),
        call_requires(*envelope_of, (text,)),
        forall|v: serde_json::Value| call_requires(*trades_of, (v,)),
        forall|v: serde_json::Value, trades: Vec<WsTrade>|
            call_ensures(*trades_of, (v,), Ok(trades)) ==> *old(sequence) + trades@.len()
                <= u64::MAX,
    ensures
        exists|envelope: Result<ChannelEnvelope, serde_json::Error>| #[trigger]
            call_ensures(*envelope_of, (text,), envelope) && channel_outcome(
                envelope,
                *trades_of,
                symbol,
                *old(sequence),
                *final(sequence),
                r,
            ),
        r matches Ok(ts) ==> forall|i: int|
            0 <= i < ts@.len() ==> call_ensures(*clock, (), (#[trigger] ts@[i]).ts_recv_ns),
{
    let envelope: Result<ChannelEnvelope, serde_json::Error> = envelope_of(text);
    match envelope {
        Err(e) => Err(IngestError::Json(e)),
        Ok(c) => {
            if !same_text(c.channel.as_str(), "trades") {
                return Ok(Vec::new());
            }
            let parsed: Result<Vec<WsTrade>, serde_json::Error> = trades_of(c.data);
            convert(parsed, symbol, sequence, clock)
        },
    }
}

/// Decodes one message that may hold any number of trades: none where the
/// numbers run out on it.
pub fn try_decode<
    P: Fn(&str) -> Result<ChannelEnvelope, serde_json::Error>,
    T: Fn(serde_json::Value) -> Result<Vec<WsTrade>, serde_json::Error>,
    C: Fn() -> u64,
>(
    text: &str,
    symbol: Symbol,
    sequence: &mut u64,
    envelope_of: &P,
    trades_of: &T,
    clock: &C,
) -> (r: Option<Result<Vec<NormalizedTrade>, IngestError>>)
    requires
        call_requires(*clock, ()),
        call_requires(*envelope_of, (text,)),
        forall|v: serde_json::Value| call_requires(*trades_of, (v,)),
    ensures
        match r {
            Some(out) => {
                &&& exists|envelope: Result<ChannelEnvelope, serde_json::Error>| #[trigger]
                    call_ensures(*envelope_of, (text,), envelope) && channel_outcome(
                        envelope,
                        *trades_of,
                        symbol,
                        *old(sequence),
                        *final(sequence),
                        out,
                    )
                &&& out matches Ok(ts) ==> forall|i: int|
                    0 <= i < ts@.len() ==> call_ensures(*clock, (), (#[trigger] ts@[i]).ts_recv_ns)
            },
            None => {
                &&& *final(sequence) == *old(sequence)
                &&& exists|c: ChannelEnvelope, trades: Vec<WsTrade>|
                    #![trigger call_ensures(*envelope_of, (text,), Ok(c)), trades@]
                    call_ensures(*envelope_of, (text,), Ok(c)) && c.channel@ == "trades"@
                        && call_ensures(*trades_of, (c.data,), Ok(trades)) && *old(sequence)
                        + trades@.len() > u64::MAX
            },
        },
{
    let envelope: Result<ChannelEnvelope, serde_json::Error> = envelope_of(text);
    match envelope {
        Err(e) => Some(Err(IngestError::Json(e))),
        Ok(c) => {
            if !same_text(c.channel.as_str(), "trades") {
                return Some(Ok(Vec::new()));
            }
            let parsed: Result<Vec<WsTrade>, serde_json::Error> = trades_of(c.data);
            if let Ok(trades) = &parsed {
                if trades.len() as u64 > u64::MAX - *sequence {
                    return None;
                }
            }
            Some(convert(parsed, symbol, sequence, clock))
        },
    }
}

/// The taker of a trade buys exactly when the venue calls its side `B`; time,
/// price and quantity are the trade's own.
pub proof fn law_the_taker_has_the_named_side(t: WsTrade)
    ensures
        ws_print(t).side == TakerSide::Buy <==> t.side@ == "B"@,
        ws_print(t).time_ms == t.time,
        ws_print(t).price == t.px@,
        ws_print(t).qty == t.sz@,
{
}

} // verus!
