use geiger::capture::{
    decode_record, decode_tape, encode_record, encode_tape, exchange_from_u8, taker_side_from_u8,
    CaptureError, FlushCounter, ReadAction, ReadEvent, RecordAssembler, RECORD_SIZE,
};
use geiger::feed::{feed_step, FeedAction, FeedEvent};
use geiger::trade::{
    parse_fixed8, parse_price, parse_qty, Exchange, IngestError, NormalizedTrade, Price, Qty,
    Symbol, TakerSide,
};
use geiger::{binance, bybit, hyperliquid};
use serde_json::Value;

fn wrong(what: &str) -> serde_json::Error {
    <serde_json::Error as serde::de::Error>::custom(what)
}

fn text_in(v: &Value, key: &str) -> Result<String, serde_json::Error> {
    v.get(key).and_then(|x| x.as_str()).map(String::from).ok_or_else(|| wrong(key))
}

fn count_in(v: &Value, key: &str) -> Result<u64, serde_json::Error> {
    v.get(key).and_then(|x| x.as_u64()).ok_or_else(|| wrong(key))
}

fn clock() -> u64 {
    77
}

// Decimals

#[test]
fn parses_whole_number() {
    assert_eq!(parse_fixed8("16578").unwrap(), 1_657_800_000_000);
}

#[test]
fn parses_exact_8_decimals() {
    assert_eq!(parse_fixed8("0.00000001").unwrap(), 1);
}

#[test]
fn parses_short_decimal_pads_with_zeros() {
    assert_eq!(parse_fixed8("16578.50").unwrap(), 1_657_850_000_000);
}

#[test]
fn rejects_more_than_8_decimals() {
    assert!(parse_fixed8("1.123456789").is_err());
}

#[test]
fn rejects_negative() {
    assert!(parse_fixed8("-1.5").is_err());
}

#[test]
fn rejects_garbage() {
    assert!(parse_fixed8("").is_err());
    assert!(parse_fixed8("abc").is_err());
    assert!(parse_fixed8("1.2.3").is_err());
}

#[test]
fn a_refused_decimal_is_reported_trimmed() {
    assert!(matches!(parse_fixed8("  x1 "), Err(IngestError::BadDecimal(t)) if t == "x1"));
    assert!(parse_fixed8("184467440737.09551616").is_err());
    assert_eq!(parse_fixed8(" 184467440737.09551615\n").unwrap(), u64::MAX);
    assert_eq!(parse_price("2.5").unwrap(), Price::new(250_000_000));
    assert_eq!(parse_qty("7.").unwrap(), Qty::new(700_000_000));
    assert!(parse_fixed8("1.+5").is_err());
    assert!(parse_fixed8("1.-5").is_err());
    assert_eq!(parse_fixed8("+1.5").unwrap(), 150_000_000);
}

#[test]
fn parse_fixed8_round_trips_arbitrary_values() {
    let mut raw: u64 = 1;
    for _ in 0..2000 {
        raw = raw.wrapping_mul(6364136223846793005).wrapping_add(1442695040888963407);
        let s = format!("{}.{:08}", raw / 100_000_000, raw % 100_000_000);
        assert_eq!(parse_fixed8(&s).unwrap(), raw);
    }
}

#[test]
fn normalized_trade_size_is_8_byte_aligned() {
    assert_eq!(std::mem::size_of::<NormalizedTrade>() % 8, 0);
}

#[test]
fn symbols_are_padded_and_cut() {
    assert_eq!(Symbol::from_bytes(b"BTC").as_bytes(), b"BTC\0\0\0\0\0\0\0\0\0\0\0\0\0");
    assert_eq!(Symbol::from_bytes(b"0123456789ABCDEFGH").as_bytes(), b"0123456789ABCDEF");
}

// Binance

const BINANCE_SAMPLE: &str = r#"{
        "stream": "bnbusdt@aggTrade",
        "data": {
            "e": "aggTrade",
            "E": 1672515782136,
            "s": "BNBUSDT",
            "a": 12345,
            "p": "0.001",
            "q": "100",
            "f": 100,
            "l": 105,
            "T": 1672515782136,
            "m": true
        }
    }"#;

fn agg_trade(text: &str) -> Result<binance::AggTrade, serde_json::Error> {
    let v: Value = serde_json::from_str(text)?;
    let data = v.get("data").ok_or_else(|| wrong("data"))?;
    Ok(binance::AggTrade {
        trade_time_ms: count_in(data, "T")?,
        price: text_in(data, "p")?,
        qty: text_in(data, "q")?,
        buyer_is_maker: data.get("m").and_then(|x| x.as_bool()).ok_or_else(|| wrong("m"))?,
    })
}

fn binance_decode(text: &str, seq: &mut u64) -> Result<NormalizedTrade, IngestError> {
    binance::decode(text, Symbol::from_bytes(b"BNBUSDT"), seq, &agg_trade, &clock)
}

#[test]
fn binance_decodes_sample_envelope() {
    let mut seq = 0u64;
    let trade = binance_decode(BINANCE_SAMPLE, &mut seq).unwrap();
    assert_eq!(trade.price.raw(), 100_000);
    assert_eq!(trade.qty.raw(), 100 * 100_000_000);
    assert_eq!(trade.ts_exchange_ns, 1_672_515_782_136_000_000);
    assert_eq!(trade.taker_side, TakerSide::Sell);
    assert_eq!(trade.exchange, Exchange::Binance);
    assert_eq!(trade.sequence, 0);
    assert_eq!(trade.ts_recv_ns, 77);
    assert_eq!(trade.symbol, Symbol::from_bytes(b"BNBUSDT"));
}

#[test]
fn sequence_increments_across_calls() {
    let mut seq = 0u64;
    let a = binance_decode(BINANCE_SAMPLE, &mut seq).unwrap();
    let b = binance_decode(BINANCE_SAMPLE, &mut seq).unwrap();
    assert_eq!(a.sequence, 0);
    assert_eq!(b.sequence, 1);
}

#[test]
fn buyer_is_taker_when_m_is_false() {
    let flipped = BINANCE_SAMPLE.replace("\"m\": true", "\"m\": false");
    let mut seq = 0u64;
    let trade = binance_decode(&flipped, &mut seq).unwrap();
    assert_eq!(trade.taker_side, TakerSide::Buy);
}

#[test]
fn url_is_lowercased_and_market_routed() {
    let url = binance::build_url("bnbusdt");
    assert_eq!(url, "wss://fstream.binance.com/market/stream?streams=bnbusdt@aggTrade");
    assert_eq!(binance::stream_url("BnbUSDT"), url);
    assert_eq!(binance::normalized_symbol("bnbusdt"), Symbol::from_bytes(b"BNBUSDT"));
}

#[test]
fn rejects_malformed_json() {
    let mut seq = 0u64;
    assert!(matches!(binance_decode("not json", &mut seq), Err(IngestError::Json(_))));
    assert_eq!(seq, 0);
}

#[test]
fn a_refused_number_uses_up_no_place_in_the_sequence() {
    let bad = BINANCE_SAMPLE.replace("0.001", "free");
    let mut seq = 4u64;
    assert!(matches!(binance_decode(&bad, &mut seq), Err(IngestError::BadDecimal(t)) if t == "free"));
    assert_eq!(seq, 4);
    let late = BINANCE_SAMPLE.replace("\"T\": 1672515782136", "\"T\": 18446744073709551615");
    let t = binance_decode(&late, &mut seq).unwrap();
    assert_eq!((t.ts_exchange_ns, t.sequence, seq), (u64::MAX, 4, 5));
}

// Bybit

const BYBIT_SAMPLE: &str = r#"{
        "topic": "publicTrade.BTCUSDT",
        "type": "snapshot",
        "ts": 1672304486868,
        "data": [
            {
                "T": 1672304486865,
                "s": "BTCUSDT",
                "S": "Buy",
                "v": "0.001",
                "p": "16578.50",
                "L": "PlusTick",
                "i": "20f43950-d8dd-5b31-9112-a178eb6023af",
                "BT": false,
                "seq": 1783284617
            }
        ]
    }"#;

fn envelope(v: Value) -> Result<bybit::TradeEnvelope, serde_json::Error> {
    let data = v.get("data").and_then(|x| x.as_array()).ok_or_else(|| wrong("data"))?;
    let mut trades = Vec::new();
    for t in data {
        trades.push(bybit::BybitTrade {
            time_ms: count_in(t, "T")?,
            side: text_in(t, "S")?,
            price: text_in(t, "p")?,
            qty: text_in(t, "v")?,
        });
    }
    Ok(bybit::TradeEnvelope { topic: text_in(&v, "topic")?, data: trades })
}

fn bybit_decode(text: &str, seq: &mut u64) -> Result<Vec<NormalizedTrade>, IngestError> {
    bybit::decode(text, Symbol::from_bytes(b"BTCUSDT"), seq, &envelope, &clock)
}

#[test]
fn bybit_decodes_sample_envelope() {
    let mut seq = 0u64;
    let trades = bybit_decode(BYBIT_SAMPLE, &mut seq).unwrap();
    assert_eq!(trades.len(), 1);
    let t = &trades[0];
    assert_eq!(t.price.raw(), 1_657_850_000_000);
    assert_eq!(t.qty.raw(), 100_000);
    assert_eq!(t.taker_side, TakerSide::Buy);
    assert_eq!(t.exchange, Exchange::Bybit);
    assert_eq!(t.ts_exchange_ns, 1_672_304_486_865_000_000);
}

#[test]
fn ignores_control_messages_without_topic() {
    let mut seq = 0u64;
    let pong = r#"{"success":true,"ret_msg":"pong","conn_id":"abc","op":"ping"}"#;
    let trades = bybit_decode(pong, &mut seq).unwrap();
    assert!(trades.is_empty());
    assert_eq!(seq, 0);

    let sub_ack = r#"{"success":true,"ret_msg":"subscribe","op":"subscribe"}"#;
    let trades = bybit_decode(sub_ack, &mut seq).unwrap();
    assert!(trades.is_empty());
    assert!(bybit_decode("[\"topic\"]", &mut seq).unwrap().is_empty());
    assert!(bybit_decode(r#"{"topic":"orderbook.1","data":[]}"#, &mut seq).unwrap().is_empty());
}

#[test]
fn handles_multiple_trades_in_one_push() {
    let multi = BYBIT_SAMPLE.replace(
        "\"data\": [",
        "\"data\": [{\"T\":1,\"s\":\"BTCUSDT\",\"S\":\"Sell\",\"v\":\"0.5\",\"p\":\"100\",\"L\":\"PlusTick\",\"i\":\"x\",\"BT\":false,\"seq\":1},",
    );
    let mut seq = 0u64;
    let trades = bybit_decode(&multi, &mut seq).unwrap();
    assert_eq!(trades.len(), 2);
    assert_eq!(trades[0].sequence, 0);
    assert_eq!(trades[1].sequence, 1);
    assert_eq!(trades[0].taker_side, TakerSide::Sell);
    let more = bybit_decode(&multi, &mut seq).unwrap();
    assert_eq!(more[0].sequence, 2);
    assert_eq!(seq, 4);
}

#[test]
fn a_bad_push_is_refused() {
    let mut seq = 3u64;
    assert!(matches!(bybit_decode("{", &mut seq), Err(IngestError::Json(_))));
    assert!(matches!(bybit_decode(r#"{"topic":1}"#, &mut seq), Err(IngestError::Json(_))));
    assert_eq!(seq, 3);
    let bad = BYBIT_SAMPLE.replace("16578.50", "16,5");
    assert!(matches!(bybit_decode(&bad, &mut seq), Err(IngestError::BadDecimal(_))));
    assert_eq!(seq, 3);
}

#[test]
fn bybit_messages_are_spelled_as_the_venue_wants_them() {
    assert_eq!(
        bybit::subscribe_message("BTC\"USDT"),
        r#"{"args":["publicTrade.BTC\"USDT"],"op":"subscribe"}"#
    );
    assert_eq!(bybit::KEEP_ALIVE, r#"{"op":"ping"}"#);
}

// Hyperliquid

const HYPERLIQUID_SAMPLE: &str = r#"{
        "channel": "trades",
        "data": [
            {
                "coin": "BTC",
                "side": "B",
                "px": "43250.5",
                "sz": "0.25",
                "hash": "0xabc123",
                "time": 1700000000000,
                "tid": 123456789,
                "users": ["0x1111", "0x2222"]
            }
        ]
    }"#;

fn channel(text: &str) -> Result<hyperliquid::ChannelEnvelope, serde_json::Error> {
    let v: Value = serde_json::from_str(text)?;
    let channel = text_in(&v, "channel")?;
    Ok(hyperliquid::ChannelEnvelope {
        channel,
        data: v.get("data").cloned().unwrap_or(Value::Null),
    })
}

fn ws_trades(v: Value) -> Result<Vec<hyperliquid::WsTrade>, serde_json::Error> {
    let mut out = Vec::new();
    for t in v.as_array().ok_or_else(|| wrong("data"))? {
        out.push(hyperliquid::WsTrade {
            side: text_in(t, "side")?,
            px: text_in(t, "px")?,
            sz: text_in(t, "sz")?,
            time: count_in(t, "time")?,
        });
    }
    Ok(out)
}

fn hyperliquid_decode(text: &str, seq: &mut u64) -> Result<Vec<NormalizedTrade>, IngestError> {
    hyperliquid::decode(text, Symbol::from_bytes(b"BTC"), seq, &channel, &ws_trades, &clock)
}

#[test]
fn hyperliquid_decodes_sample_envelope() {
    let mut seq = 0u64;
    let trades = hyperliquid_decode(HYPERLIQUID_SAMPLE, &mut seq).unwrap();
    assert_eq!(trades.len(), 1);
    let t = &trades[0];
    assert_eq!(t.price.raw(), 4_325_050_000_000);
    assert_eq!(t.qty.raw(), 25_000_000);
    assert_eq!(t.taker_side, TakerSide::Buy);
    assert_eq!(t.exchange, Exchange::Hyperliquid);
    assert_eq!(t.ts_exchange_ns, 1_700_000_000_000_000_000);
}

#[test]
fn ignores_non_trade_channels() {
    let mut seq = 0u64;
    let sub_response = r#"{"channel":"subscriptionResponse","data":{"method":"subscribe"}}"#;
    assert!(hyperliquid_decode(sub_response, &mut seq).unwrap().is_empty());

    let pong = r#"{"channel":"pong"}"#;
    assert!(hyperliquid_decode(pong, &mut seq).unwrap().is_empty());
    assert_eq!(seq, 0);
}

#[test]
fn side_a_is_sell() {
    let flipped = HYPERLIQUID_SAMPLE.replace("\"side\": \"B\"", "\"side\": \"A\"");
    let mut seq = 0u64;
    let trades = hyperliquid_decode(&flipped, &mut seq).unwrap();
    assert_eq!(trades[0].taker_side, TakerSide::Sell);
}

#[test]
fn hyperliquid_messages_are_spelled_as_the_venue_wants_them() {
    assert_eq!(
        hyperliquid::subscribe_message("BTC"),
        r#"{"method":"subscribe","subscription":{"coin":"BTC","type":"trades"}}"#
    );
    assert_eq!(hyperliquid::KEEP_ALIVE, r#"{"method":"ping"}"#);
    let mut seq = 0u64;
    assert!(matches!(hyperliquid_decode("nope", &mut seq), Err(IngestError::Json(_))));
    assert!(matches!(
        hyperliquid_decode(r#"{"channel":"trades"}"#, &mut seq),
        Err(IngestError::Json(_))
    ));
}

#[test]
fn a_feed_reacts_to_each_frame() {
    assert!(matches!(feed_step(FeedEvent::Text("x".to_string())), FeedAction::Decode(t) if t == "x"));
    assert!(matches!(feed_step(FeedEvent::Ping(vec![1])), FeedAction::Pong(p) if p == vec![1]));
    assert!(matches!(feed_step(FeedEvent::Closed), FeedAction::End));
    assert!(matches!(feed_step(FeedEvent::Failed), FeedAction::Fail));
    assert!(matches!(feed_step(FeedEvent::Other), FeedAction::Continue));
    assert!(matches!(feed_step(FeedEvent::KeepAliveDue), FeedAction::KeepAlive));
}

// Capture

fn trade(seq: u64) -> NormalizedTrade {
    NormalizedTrade {
        price: Price::new(100 + seq),
        qty: Qty::new(1),
        ts_exchange_ns: seq * 1000,
        ts_recv_ns: seq * 1000 + 50,
        symbol: Symbol::from_bytes(b"BTCUSDT"),
        exchange: Exchange::Binance,
        taker_side: if seq % 2 == 0 { TakerSide::Buy } else { TakerSide::Sell },
        sequence: seq,
    }
}

/// Reads a tape in chunks of at most so many bytes.
fn read_all(bytes: &[u8], chunk: usize) -> Vec<Result<NormalizedTrade, CaptureError>> {
    let mut out = Vec::new();
    let mut assembler = RecordAssembler::new();
    let mut at = 0;
    let mut interrupted = false;
    loop {
        interrupted = !interrupted;
        let event = if interrupted {
            ReadEvent::Interrupted
        } else {
            let n = chunk.min(assembler.missing()).min(bytes.len() - at);
            at += n;
            ReadEvent::Got(bytes[at - n..at].to_vec())
        };
        match assembler.step(event) {
            ReadAction::ReadMore => {}
            ReadAction::End => return out,
            ReadAction::Fail => panic!("nothing failed"),
            ReadAction::Yield(r) => out.push(r),
        }
    }
}

#[test]
fn round_trips_a_session_bit_for_bit() {
    let written: Vec<NormalizedTrade> = (0..50).map(trade).collect();
    let tape = encode_tape(&written);
    assert_eq!(tape.len(), 50 * RECORD_SIZE);
    assert_eq!(decode_tape(&tape).unwrap(), written);
    for chunk in [1, 7, 57, 58, 1000] {
        let read: Result<Vec<NormalizedTrade>, CaptureError> =
            read_all(&tape, chunk).into_iter().collect();
        assert_eq!(read.unwrap(), written);
    }
}

#[test]
fn truncated_trailing_record_is_an_error_not_a_silent_stop() {
    let mut tape = encode_tape(&vec![trade(1), trade(2)]);
    tape.truncate(RECORD_SIZE + 10);
    let read = read_all(&tape, 64);
    assert_eq!(read.len(), 2);
    assert_eq!(read[0], Ok(trade(1)));
    assert_eq!(read[1], Err(CaptureError::Truncated { got: 10 }));
    assert_eq!(decode_tape(&tape), Err(CaptureError::Truncated { got: 10 }));
    assert_eq!(
        CaptureError::Truncated { got: 10 }.message(),
        "capture file truncated mid-record: got 10 of 58 bytes"
    );
}

#[test]
fn corrupt_exchange_discriminant_is_rejected() {
    let mut tape = encode_record(&trade(1));
    tape[48] = 200;
    assert_eq!(decode_record(&tape), Err(CaptureError::BadExchange(200)));
    assert_eq!(read_all(&tape, 58)[0], Err(CaptureError::BadExchange(200)));
    assert_eq!(
        CaptureError::BadExchange(200).message(),
        "corrupt capture record: exchange discriminant 200 is out of range"
    );
    assert_eq!(exchange_from_u8(2), Ok(Exchange::Hyperliquid));
}

#[test]
fn corrupt_taker_side_discriminant_is_rejected() {
    let mut tape = encode_record(&trade(1));
    tape[49] = 7;
    assert_eq!(decode_record(&tape), Err(CaptureError::BadTakerSide(7)));
    assert_eq!(
        CaptureError::BadTakerSide(7).message(),
        "corrupt capture record: taker_side discriminant 7 is out of range"
    );
    assert_eq!(taker_side_from_u8(1), Ok(TakerSide::Sell));
}

#[test]
fn empty_file_yields_no_records() {
    assert!(read_all(&[], 58).is_empty());
    assert_eq!(decode_tape(&vec![]), Ok(vec![]));
}

#[test]
fn records_lay_their_fields_out_in_order() {
    let mut t = trade(0x0102);
    t.price = Price::new(0x1122_3344_5566_7788);
    t.exchange = Exchange::Bybit;
    t.taker_side = TakerSide::Sell;
    let bytes = encode_record(&t);
    assert_eq!(bytes[0..8], [0x88, 0x77, 0x66, 0x55, 0x44, 0x33, 0x22, 0x11]);
    assert_eq!(&bytes[32..39], b"BTCUSDT");
    assert_eq!(bytes[48], 1);
    assert_eq!(bytes[49], 1);
    assert_eq!(bytes[50..52], [0x02, 0x01]);
}

#[test]
fn a_failed_read_gives_the_record_up() {
    let bytes = encode_record(&trade(9));
    let mut assembler = RecordAssembler::new();
    assert!(matches!(assembler.step(ReadEvent::Got(bytes[0..30].to_vec())), ReadAction::ReadMore));
    assert_eq!(assembler.missing(), 28);
    assert!(matches!(assembler.step(ReadEvent::Failed), ReadAction::Fail));
    assert_eq!(assembler.missing(), RECORD_SIZE);
    assert!(matches!(assembler.step(ReadEvent::Got(bytes)), ReadAction::Yield(Ok(t)) if t == trade(9)));
}

#[test]
fn flushes_come_due_by_count_and_by_tick() {
    let mut c = FlushCounter::new();
    assert!(!c.on_tick());
    assert!(!c.on_recorded(3));
    assert!(!c.on_recorded(3));
    assert!(c.on_recorded(3));
    assert!(!c.on_recorded(3));
    assert!(c.on_tick());
    assert!(!c.on_tick());
    assert!(c.on_recorded(0));
    assert_eq!(c.total(), 5);
}

#[test]
fn a_push_that_the_numbers_run_out_on_is_not_decoded() {
    let btc = Symbol::from_bytes(b"BTC");
    let mut seq = u64::MAX;
    assert!(bybit::try_decode(BYBIT_SAMPLE, btc, &mut seq, &envelope, &clock).is_none());
    assert!(
        hyperliquid::try_decode(HYPERLIQUID_SAMPLE, btc, &mut seq, &channel, &ws_trades, &clock)
            .is_none()
    );
    assert_eq!(seq, u64::MAX);

    let pong = r#"{"op":"pong"}"#;
    assert!(bybit::try_decode(pong, btc, &mut seq, &envelope, &clock).unwrap().unwrap().is_empty());
    assert!(bybit::try_decode("{", btc, &mut seq, &envelope, &clock).unwrap().is_err());

    seq = u64::MAX - 1;
    let trades = bybit::try_decode(BYBIT_SAMPLE, btc, &mut seq, &envelope, &clock).unwrap().unwrap();
    assert_eq!((trades.len(), trades[0].sequence, seq), (1, u64::MAX - 1, u64::MAX));
    seq = 5;
    let trades =
        hyperliquid::try_decode(HYPERLIQUID_SAMPLE, btc, &mut seq, &channel, &ws_trades, &clock)
            .unwrap()
            .unwrap();
    assert_eq!((trades.len(), trades[0].sequence, seq), (1, 5, 6));
}
