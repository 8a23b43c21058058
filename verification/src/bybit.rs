//! Bybit v5, linear category, public trades.
//!
//! The topic is picked by a message after connecting, and the connection is
//! kept alive by a message of the venue's own at least every twenty seconds,
//! on top of answering protocol pings. One push carries many trades.

use crate::feed::{normalize_all, print_views, prints_outcome, Print, PrintView};
use crate::json::{
    entry_trees, has_key, json_list, json_object, json_parsed, json_string, json_text, json_tree,
    json_trees, members, parse, to_text, JsonTree,
};
use crate::text::{same_text, starts_with};
use crate::trade::{Exchange, IngestError, NormalizedTrade, Symbol, TakerSide};
use vstd::prelude::*;
use vstd::string::*;

verus! {

pub const URL: &'static str = "wss://stream.bybit.com/v5/public/linear";

/// Seconds between keep-alives.
pub const KEEP_ALIVE_SECS: u64 = 15;

/// The venue's own keep-alive.
pub const KEEP_ALIVE: &'static str = "{\"op\":\"ping\"}";

/// A trade as it comes over the wire.
pub struct BybitTrade {
    pub time_ms: u64,
    /// The taker's side.
    pub side: String,
    pub price: String,
    pub qty: String,
}

/// A push of a topic.
pub struct TradeEnvelope {
    pub topic: String,
    pub data: Vec<BybitTrade>,
}

/// What a trade says. `Sell` is the only documented side besides `Buy`.
pub open spec fn bybit_print(t: BybitTrade) -> PrintView {
    PrintView {
        time_ms: t.time_ms,
        side: if t.side@ == "Buy"@ {
            TakerSide::Buy
        } else {
            TakerSide::Sell
        },
        price: t.price@,
        qty: t.qty@,
    }
}

/// What the trades of a push say.
pub open spec fn bybit_prints(data: Seq<BybitTrade>) -> Seq<PrintView> {
    data.map_values(|t: BybitTrade| bybit_print(t))
}

/// The message that subscribes to a symbol's trades.
pub open spec fn subscribe_tree(symbol: Seq<char>) -> JsonTree {
    JsonTree::Object(
        members(
            seq![
                ("op"@, JsonTree::Text("subscribe"@)),
                ("args"@, JsonTree::List(seq![JsonTree::Text("publicTrade."@ + symbol)])),
            ],
        ),
    )
}

/// The text of the message that subscribes to a symbol's trades.
pub fn subscribe_message(symbol: &str) -> (r: String)
    ensures
        r@ == json_text(subscribe_tree(symbol@)),
{
    let topic: String = "publicTrade.".to_owned().concat(symbol);
    let mut args: Vec<serde_json::Value> = Vec::new();
    args.push(json_string(topic.as_str()));
    assert(json_trees(args@) =~= seq![JsonTree::Text("publicTrade."@ + symbol@)]);
    let mut es: Vec<(String, serde_json::Value)> = Vec::new();
    es.push(("op".to_owned(), json_string("subscribe")));
    es.push(("args".to_owned(), json_list(args)));
    assert(entry_trees(es@) =~= seq![
        ("op"@, JsonTree::Text("subscribe"@)),
        ("args"@, JsonTree::List(seq![JsonTree::Text("publicTrade."@ + symbol@)])),
    ]);
    to_text(&json_object(es))
}

/// Whether a message is a push of some topic. What has none is control
/// traffic: acknowledgements and replies to keep-alives.
pub open spec fn has_topic(tree: JsonTree) -> bool {
    tree matches JsonTree::Object(m) && m.contains_key("topic"@)
}

/// What a push's parsed envelope becomes: nothing, where the topic is another.
pub open spec fn envelope_outcome(
    parsed: Result<TradeEnvelope, serde_json::Error>,
    symbol: Symbol,
    from: u64,
    to: u64,
    r: Result<Vec<NormalizedTrade>, IngestError>,
) -> bool {
    match parsed {
        Err(e) => to == from && r == Err::<Vec<NormalizedTrade>, IngestError>(IngestError::Json(e)),
        Ok(envelope) => if "publicTrade."@.is_prefix_of(envelope.topic@) {
            prints_outcome(bybit_prints(envelope.data@), symbol, Exchange::Bybit, from, to, r)
        } else {
            r matches Ok(ts) && ts@.len() == 0 && to == from
        },
    }
}

fn prints_of(data: &Vec<BybitTrade>) -> (r: Vec<Print>)
    ensures
        print_views(r@) == bybit_prints(data@),
{
    let mut out: Vec<Print> = Vec::new();
    let mut i: usize = 0;
    while i < data.len()
        invariant
            i <= data@.len(),
            print_views(out@) =~= bybit_prints(data@).take(i as int),
        decreases data.len() - i,
    {
        let t: &BybitTrade = &data[i];
        let print: Print = Print {
            time_ms: t.time_ms,
            side: if same_text(t.side.as_str(), "Buy") {
                TakerSide::Buy
            } else {
                TakerSide::Sell
            },
            price: t.price.as_str().to_owned(),
            qty: t.qty.as_str().to_owned(),
        };
        assert(print@ == bybit_print(*t));
        assert(print_views(out@.push(print)) =~= print_views(out@).push(print@));
        out.push(print);
        i += 1;
    }
    assert(print_views(out@) =~= bybit_prints(data@));
    out
}

/// Makes trades of a parsed push.
pub fn convert<C: Fn() -> u64>(
    parsed: Result<TradeEnvelope, serde_json::Error>,
    symbol: Symbol,
    sequence: &mut u64,
    clock: &C,
) -> (r: Result<Vec<NormalizedTrade>, IngestError>)
    requires
        call_requires(*clock, ()),
        parsed matches Ok(envelope) ==> *old(sequence) + envelope.data@.len() <= u64::MAX,
    ensures
        envelope_outcome(parsed, symbol, *old(sequence), *final(sequence), r),
        r matches Ok(ts) ==> forall|i: int|
            0 <= i < ts@.len() ==> call_ensures(*clock, (), (#[trigger] ts@[i]).ts_recv_ns),
{
    match parsed {
        Err(e) => Err(IngestError::Json(e)),
        Ok(envelope) => {
            if !starts_with(envelope.topic.as_str(), "publicTrade.") {
                return Ok(Vec::new());
            }
            let prints: Vec<Print> = prints_of(&envelope.data);
            assert(print_views(prints@).len() == prints@.len());
            normalize_all(&prints, symbol, Exchange::Bybit, sequence, clock)
        },
    }
}

/// What a message becomes, given how pushes are parsed.
pub open spec fn message_outcome<P: Fn(serde_json::Value) -> Result<
    TradeEnvelope,
    serde_json::Error,
>>(
    text: Seq<char>,
    envelope_of: P,
    symbol: Symbol,
    from: u64,
    to: u64,
    r: Result<Vec<NormalizedTrade>, IngestError>,
) -> bool {
    match json_parsed(text) {
        None => to == from && r matches Err(IngestError::Json(_)),
        Some(tree) => if !has_topic(tree) {
            r matches Ok(ts) && ts@.len() == 0 && to == from
        } else {
            exists|v: serde_json::Value, parsed: Result<TradeEnvelope, serde_json::Error>|
                json_tree(v) == tree && #[trigger] call_ensures(envelope_of, (v,), parsed)
                    && envelope_outcome(parsed, symbol, from, to, r)
        },
    }
}

/// Whether a value is what a text reads as, and a push.
pub open spec fn is_push(text: Seq<char>, v: serde_json::Value) -> bool {
    json_parsed(text) == Some(json_tree(v)) && has_topic(json_tree(v))
}

/// The parsed envelope of a message, none of control traffic.
fn push_of<P: Fn(serde_json::Value) -> Result<TradeEnvelope, serde_json::Error>>(
    text: &str,
    envelope_of: &P,
) -> (r: Result<Option<Result<TradeEnvelope, serde_json::Error>>, serde_json::Error>)
    requires
        forall|v: serde_json::Value| call_requires(*envelope_of, (v,)),
    ensures
        match r {
            Err(_) => json_parsed(text@) is None,
            Ok(None) => json_parsed(text@) matches Some(tree) && !has_topic(tree),
            Ok(Some(parsed)) => exists|v: serde_json::Value| #[trigger]
                call_ensures(*envelope_of, (v,), parsed) && is_push(text@, v),
        },
{
    let value: serde_json::Value = match parse(text) {
        Ok(v) => v,
        Err(e) => {
            return Err(e);
        },
    };
    if !has_key(&value, "topic") {
        return Ok(None);
    }
    Ok(Some(envelope_of(value)))
}

/// Decodes one message. Control traffic yields nothing and takes no number; a
/// push is parsed, and what comes of that becomes trades.
pub fn decode<
    P: Fn(serde_json::Value) -> Result<TradeEnvelope, serde_json::Error>,
    C: Fn() -> u64,
>(text: &str, symbol: Symbol, sequence: &mut u64, envelope_of: &P, clock: &C) -> (r: Result<
    Vec<NormalizedTrade>,
    IngestError,
>)
    requires
        call_requires(*clock, ()),
        forall|v: serde_json::Value| call_requires(*envelope_of, (v,)),
        forall|v: serde_json::Value, envelope: TradeEnvelope|
            call_ensures(*envelope_of, (v,), Ok(envelope)) ==> *old(sequence)
                + envelope.data@.len() <= u64::MAX,
    ensures
        message_outcome(text@, *envelope_of, symbol, *old(sequence), *final(sequence), r),
        r matches Ok(ts) ==> forall|i: int|
            0 <= i < ts@.len() ==> call_ensures(*clock, (), (#[trigger] ts@[i]).ts_recv_ns),
{
    match push_of(text, envelope_of) {
        Err(e) => Err(IngestError::Json(e)),
        Ok(None) => Ok(Vec::new()),
        Ok(Some(parsed)) => convert(parsed, symbol, sequence, clock),
    }
}

/// Decodes one message that may hold any number of trades: none where the
/// numbers run out on it.
pub fn try_decode<
    P: Fn(serde_json::Value) -> Result<TradeEnvelope, serde_json::Error>,
    C: Fn() -> u64,
>(text: &str, symbol: Symbol, sequence: &mut u64, envelope_of: &P, clock: &C) -> (r: Option<
    Result<Vec<NormalizedTrade>, IngestError>,
>)
    requires
        call_requires(*clock, ()),
        forall|v: serde_json::Value| call_requires(*envelope_of, (v,)),
    ensures
        match r {
            Some(out) => {
                &&& message_outcome(
                    text@,
                    *envelope_of,
                    symbol,
                    *old(sequence),
                    *final(sequence),
                    out,
                )
                &&& out matches Ok(ts) ==> forall|i: int|
                    0 <= i < ts@.len() ==> call_ensures(*clock, (), (#[trigger] ts@[i]).ts_recv_ns)
            },
            None => {
                &&& *final(sequence) == *old(sequence)
                &&& exists|v: serde_json::Value, envelope: TradeEnvelope| #[trigger]
                    call_ensures(*envelope_of, (v,), Ok(envelope)) && is_push(text@, v) && *old(
                        sequence,
                    ) + envelope.data@.len() > u64::MAX
            },
        },
{
    match push_of(text, envelope_of) {
        Err(e) => Some(Err(IngestError::Json(e))),
        Ok(None) => Some(Ok(Vec::new())),
        Ok(Some(parsed)) => {
            if let Ok(envelope) = &parsed {
                if envelope.data.len() as u64 > u64::MAX - *sequence {
                    return None;
                }
            }
            Some(convert(parsed, symbol, sequence, clock))
        },
    }
}

/// The taker of a trade buys exactly when the venue calls its side `Buy`; time,
/// price and quantity are the trade's own.
pub proof fn law_the_taker_has_the_named_side(t: BybitTrade)
    ensures
        bybit_print(t).side == TakerSide::Buy <==> t.side@ == "Buy"@,
        bybit_print(t).time_ms == t.time_ms,
        bybit_print(t).price == t.price@,
        bybit_print(t).qty == t.qty@,
{
}

} // verus!
