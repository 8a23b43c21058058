use geiger::backoff::{BackoffConfig, Duration, ExponentialBackoff};
use geiger::config::{
    optional_u64, parse_exchange, plan_reload, resolve_all, resolve_stream, stream_key, Reload,
    ServiceConfig, StreamConfig,
};
use geiger::double::{Double, Op};
use geiger::health::{
    handle_request, path_of, render_health, render_metrics, request_path, respond, route, Route,
};
use geiger::numeral::Digits;
use geiger::protocol::{ServerMessage, SubscribeRequest};
use geiger::registry::{registration, StreamEntry, StreamHealth};
use geiger::server::{
    check_auth, open_session, session_step, subscription, FirstFrame, Opening, Refusal,
    ServiceError, SessionAction, SessionEvent,
};
use geiger::state::{check_interval, ClientEvent, ToxicityState};
use geiger::trade::{Exchange, NormalizedTrade, Price, Qty, Symbol, TakerSide};
use geiger::vpin::VpinEngineConfig;
use geiger::worker::Worker;

fn d(x: f64) -> Double {
    Double { bits: x.to_bits() }
}

fn f(x: Double) -> f64 {
    f64::from_bits(x.bits)
}

fn unit(op: Op) -> Double {
    d(match op {
        Op::Add(x, y) => f(x) + f(y),
        Op::Sub(x, y) => f(x) - f(y),
        Op::Mul(x, y) => f(x) * f(y),
        Op::Div(x, y) => f(x) / f(y),
        Op::Sqrt(x) => f(x).sqrt(),
        Op::Erf(x) => libm::erf(f(x)),
        Op::Of(n) => n as f64,
    })
}

fn show(x: Double, digits: Digits) -> String {
    match digits {
        Digits::Shortest => format!("{}", f(x)),
        Digits::Fixed(n) => format!("{:.*}", n as usize, f(x)),
    }
}

// Backoff

#[test]
fn backoff_config_default_matches_documented_safe_defaults() {
    let cfg = BackoffConfig::default();
    assert_eq!(cfg.base, Duration::from_millis(250));
    assert_eq!(cfg.max, Duration::from_secs(30));
}

#[test]
fn backoff_config_build_produces_a_working_backoff() {
    let mut b =
        BackoffConfig { base: Duration::from_millis(10), max: Duration::from_millis(40) }.build();
    assert_eq!(b.next_delay(), Duration::from_millis(10));
    assert_eq!(b.next_delay(), Duration::from_millis(20));
    assert_eq!(b.next_delay(), Duration::from_millis(40));
    assert_eq!(b.next_delay(), Duration::from_millis(40));
}

#[test]
fn doubles_each_attempt_until_capped() {
    let mut b = ExponentialBackoff::new(Duration::from_millis(100), Duration::from_secs(5));
    assert_eq!(b.next_delay(), Duration::from_millis(100));
    assert_eq!(b.next_delay(), Duration::from_millis(200));
    assert_eq!(b.next_delay(), Duration::from_millis(400));
    assert_eq!(b.next_delay(), Duration::from_millis(800));
}

#[test]
fn caps_at_max() {
    let mut b = ExponentialBackoff::new(Duration::from_secs(1), Duration::from_secs(3));
    for _ in 0..10 {
        assert!(!b.next_delay().exceeds(&Duration::from_secs(3)));
    }
}

#[test]
fn reset_goes_back_to_base() {
    let mut b = ExponentialBackoff::new(Duration::from_millis(100), Duration::from_secs(5));
    b.next_delay();
    b.next_delay();
    b.reset();
    assert_eq!(b.next_delay(), Duration::from_millis(100));
}

#[test]
fn never_panics_over_many_attempts() {
    let mut b = ExponentialBackoff::new(Duration::from_millis(50), Duration::from_secs(10));
    for _ in 0..10_000 {
        let delay = b.next_delay();
        assert!(!delay.exceeds(&Duration::from_secs(10)));
    }
}

#[test]
fn delays_double_all_the_way_to_the_cap() {
    let mut b = ExponentialBackoff::new(Duration::new(0, 1), Duration::from_secs(3600));
    for attempt in 0..42u32 {
        assert_eq!(b.next_delay().as_nanos(), 1u128 << attempt);
    }
    for _ in 0..100 {
        assert_eq!(b.next_delay(), Duration::from_secs(3600));
    }
    b.reset();
    for _ in 0..21 {
        b.next_delay();
    }
    assert_eq!(b.next_delay().as_nanos(), 2_097_152);
}

#[test]
fn the_longest_spans_do_not_overflow() {
    let longest = Duration::new(u64::MAX, 999_999_999);
    let mut b = ExponentialBackoff::new(Duration::new(0, 1), longest);
    let mut last = Duration::new(0, 0);
    for attempt in 0..120u32 {
        let delay = b.next_delay();
        assert!(!last.exceeds(&delay));
        assert_eq!(delay == longest, attempt >= 94);
        last = delay;
    }
    let mut long = ExponentialBackoff::new(Duration::from_secs(u64::MAX), longest);
    long.next_delay();
    assert_eq!(long.next_delay(), longest);
    let mut none = ExponentialBackoff::new(Duration::new(0, 0), Duration::from_secs(1));
    none.next_delay();
    assert_eq!(none.next_delay(), Duration::new(0, 0));
}

#[test]
fn spans_split_into_seconds_and_the_rest() {
    let s = Duration::from_millis(2_500);
    assert_eq!((s.as_secs(), s.subsec_nanos()), (2, 500_000_000));
    assert_eq!(s.half(), Duration::from_millis(1_250));
    assert_eq!(s.max(Duration::from_secs(3)), Duration::from_secs(3));
    assert_eq!(s.min(Duration::from_secs(3)), s);
}

// Configuration

fn stream(exchange: &str, symbol: &str) -> StreamConfig {
    StreamConfig {
        exchange: exchange.to_string(),
        symbol: symbol.to_string(),
        bucket_volume: d(50.0),
        sigma_window: 50,
        vpin_window: 50,
        cdf_window: None,
        backoff_base_ms: None,
        backoff_max_secs: None,
    }
}

fn valid_stream() -> StreamConfig {
    stream("binance", "BTCUSDT")
}

#[test]
fn parses_known_exchanges_case_insensitively() {
    assert_eq!(parse_exchange("Binance"), Some(Exchange::Binance));
    assert_eq!(parse_exchange("BYBIT"), Some(Exchange::Bybit));
    assert_eq!(parse_exchange("hyperliquid"), Some(Exchange::Hyperliquid));
}

#[test]
fn config_rejects_unknown_exchange() {
    assert_eq!(parse_exchange("okx"), None);
}

#[test]
fn stream_key_normalizes_casing() {
    assert_eq!(stream_key("Binance", "btcusdt"), "binance:BTCUSDT");
    assert_eq!(stream_key("BYBIT", "BTCUSDT"), "bybit:BTCUSDT");
}

#[test]
fn backoff_config_falls_back_to_default_when_unset() {
    assert_eq!(valid_stream().backoff_config(), BackoffConfig::default());
}

#[test]
fn backoff_config_uses_per_stream_override_when_set() {
    let mut cfg = valid_stream();
    cfg.backoff_base_ms = Some(500);
    cfg.backoff_max_secs = Some(60);
    let resolved = cfg.backoff_config();
    assert_eq!(resolved.base, Duration::from_millis(500));
    assert_eq!(resolved.max, Duration::from_secs(60));
}

#[test]
fn backoff_config_allows_overriding_only_one_field() {
    let mut cfg = valid_stream();
    cfg.backoff_base_ms = Some(500);
    let resolved = cfg.backoff_config();
    assert_eq!(resolved.base, Duration::from_millis(500));
    assert_eq!(resolved.max, BackoffConfig::default().max);
}

#[test]
fn resolve_stream_accepts_a_valid_config() {
    let (exchange, engine_cfg) = resolve_stream(&show, &valid_stream()).unwrap();
    assert_eq!(exchange, Exchange::Binance);
    assert_eq!(f(engine_cfg.bucket_volume), 50.0);
}

#[test]
fn resolve_stream_rejects_unknown_exchange() {
    let mut s = valid_stream();
    s.exchange = "okx".to_string();
    let err = resolve_stream(&show, &s).unwrap_err();
    assert!(err.contains("unknown exchange"));
    assert_eq!(err, "unknown exchange: \"okx\"");
}

#[test]
fn resolve_stream_rejects_invalid_vpin_config() {
    let mut s = valid_stream();
    s.bucket_volume = d(-1.0);
    let err = resolve_stream(&show, &s).unwrap_err();
    assert!(err.contains("invalid VPIN config"));
    assert_eq!(
        err,
        "invalid VPIN config: bucket target volume must be finite and positive, got -1"
    );
}

#[test]
fn one_invalid_stream_fails_the_startup() {
    let good = vec![valid_stream(), stream("Bybit", "ETHUSDT")];
    let resolved = resolve_all(&show, &good).unwrap();
    assert_eq!(resolved[1].0, Exchange::Bybit);
    let mut bad = good.clone();
    bad.push(stream("okx", "X"));
    bad.push(stream("nowhere", "Y"));
    assert_eq!(
        resolve_all(&show, &bad).unwrap_err(),
        "invalid stream okx:X: unknown exchange: \"okx\""
    );
}

#[test]
fn a_reload_starts_what_is_new_once() {
    let mut invalid = stream("hyperliquid", "BTC");
    invalid.sigma_window = 1;
    let file = vec![
        stream("BINANCE", "btcusdt"),
        stream("bybit", "ETHUSDT"),
        stream("Bybit", "ethusdt"),
        invalid,
        stream("okx", "X"),
    ];
    let plan = plan_reload(&show, &vec!["binance:BTCUSDT".to_string()], &file);
    assert_eq!(plan.len(), 5);
    assert!(matches!(plan[0], Reload::Running));
    assert!(matches!(plan[1], Reload::Start(Exchange::Bybit, _)));
    assert!(matches!(plan[2], Reload::Running));
    assert!(matches!(&plan[3], Reload::Skip(e) if e == "invalid VPIN config: window size must be at least 2, got 1"));
    assert!(matches!(&plan[4], Reload::Skip(e) if e == "unknown exchange: \"okx\""));
}

#[test]
fn settings_have_defaults() {
    let cfg =
        ServiceConfig::from_settings("s.json", vec![valid_stream()], None, None, None).ok().unwrap();
    assert_eq!(cfg.bind_addr, "0.0.0.0:9700");
    assert_eq!(cfg.heartbeat_interval, Duration::from_secs(5));
    assert!(cfg.auth_token.is_none());
    let set = |s: &str| Some(s.to_string());
    let cfg = ServiceConfig::from_settings(
        "s.json",
        vec![valid_stream()],
        set("127.0.0.1:1"),
        set("7"),
        set("hush"),
    )
    .ok()
    .unwrap();
    assert_eq!(cfg.bind_addr, "127.0.0.1:1");
    assert_eq!(cfg.heartbeat_interval, Duration::from_secs(7));
    assert_eq!(cfg.auth_token.as_deref(), Some("hush"));
    let cfg = ServiceConfig::from_settings("s.json", vec![valid_stream()], None, set("soon"), set(""))
        .ok()
        .unwrap();
    assert_eq!(cfg.heartbeat_interval, Duration::from_secs(5));
    assert!(cfg.auth_token.is_none());
    assert_eq!(
        ServiceConfig::from_settings("s.json", vec![], None, None, None).err().unwrap(),
        "GEIGER_STREAMS_FILE (s.json) has zero streams configured, nothing to run"
    );
    assert_eq!(optional_u64(set("+12"), 1), 12);
}

// Endpoints

fn test_registry() -> Vec<(String, StreamEntry)> {
    let mut entry = StreamEntry::new("binance".to_string(), "BTCUSDT".to_string());
    entry.health = StreamHealth {
        worker_alive: true,
        trades_processed: 42,
        readings_emitted: 3,
        last_trade_ts_ns: Some(1_700_000_000_000_000_000),
        last_heartbeat_ts_ns: Some(1_700_000_000_500_000_000),
    };
    let dead = StreamEntry::new("bybit".to_string(), "ETHUSDT".to_string());
    vec![("binance:BTCUSDT".to_string(), entry), ("bybit:ETHUSDT".to_string(), dead)]
}

#[test]
fn render_health_reports_status_and_per_stream_counters() {
    let body = render_health(&test_registry());
    let value: serde_json::Value = serde_json::from_str(&body).unwrap();
    assert_eq!(value["status"], "ok");
    assert_eq!(value["stream_count"], 2);
    assert_eq!(value["streams"]["binance:BTCUSDT"]["alive"], true);
    assert_eq!(value["streams"]["binance:BTCUSDT"]["trades_processed"], 42);
    assert_eq!(value["streams"]["binance:BTCUSDT"]["exchange"], "binance");
    assert_eq!(value["streams"]["binance:BTCUSDT"]["last_trade_ts_ns"], 1_700_000_000_000_000_000u64);
    assert_eq!(value["streams"]["bybit:ETHUSDT"]["alive"], false);
    assert!(value["streams"]["bybit:ETHUSDT"]["last_heartbeat_ts_ns"].is_null());
}

#[test]
fn render_metrics_declares_each_metric_once_and_reflects_counters() {
    let out = render_metrics(&test_registry());
    for name in [
        "geiger_trades_processed_total",
        "geiger_readings_emitted_total",
        "geiger_stream_alive",
        "geiger_last_trade_timestamp_ns",
        "geiger_last_heartbeat_timestamp_ns",
    ] {
        assert_eq!(out.matches(&format!("# TYPE {name}")).count(), 1);
        assert_eq!(out.matches(&format!("# HELP {name}")).count(), 1);
    }
    assert!(out.contains(r#"geiger_trades_processed_total{exchange="binance",symbol="BTCUSDT"} 42"#));
    assert!(out.contains(r#"geiger_readings_emitted_total{exchange="binance",symbol="BTCUSDT"} 3"#));
    assert!(out.contains(r#"geiger_stream_alive{exchange="binance",symbol="BTCUSDT"} 1"#));
    assert!(out.contains(r#"geiger_stream_alive{exchange="bybit",symbol="ETHUSDT"} 0"#));
    assert!(!out.contains(r#"geiger_last_trade_timestamp_ns{exchange="bybit""#));
    assert!(out.starts_with(
        "# HELP geiger_trades_processed_total Trades processed for this stream since the worker started.\n# TYPE geiger_trades_processed_total counter\n"
    ));
    assert_eq!(out.lines().count(), 10 + 5 + 3);
}

#[test]
fn serves_health_and_metrics_and_404s_anything_else() {
    let registry = test_registry();
    let get = |path: &str| {
        let request = format!("GET {path} HTTP/1.0\r\n\r\n").into_bytes();
        handle_request(&request, &registry).unwrap()
    };
    let health = get("/health");
    let (head, body) = health.split_once("\r\n\r\n").unwrap();
    assert!(head.starts_with("HTTP/1.1 200 OK\r\nContent-Type: application/json\r\n"));
    assert!(head.ends_with(&format!("Content-Length: {}", body.len())));
    let value: serde_json::Value = serde_json::from_str(body).unwrap();
    assert_eq!(value["status"], "ok");

    let metrics = get("/metrics");
    assert!(metrics.starts_with("HTTP/1.1 200 OK\r\nContent-Type: text/plain; version=0.0.4\r\n"));
    assert!(metrics.contains("geiger_trades_processed_total"));

    assert_eq!(
        get("/nope"),
        "HTTP/1.1 404 Not Found\r\nContent-Type: text/plain\r\nContent-Length: 9\r\n\r\nnot found"
    );
    assert!(handle_request(&vec![], &registry).is_none());
}

#[test]
fn content_length_counts_bytes_not_characters() {
    let entry = StreamEntry::new("binance".to_string(), "BTCÜSDT".to_string());
    let response = respond("/metrics", &vec![("k".to_string(), entry)]);
    let (head, body) = response.split_once("\r\n\r\n").unwrap();
    assert!(body.len() > body.chars().count());
    assert!(head.ends_with(&format!("Content-Length: {}", body.len())));
}

#[test]
fn paths_are_found_in_the_first_line_only() {
    assert_eq!(path_of("GET /health HTTP/1.1\r\nHost: x\r\n"), "/health");
    assert_eq!(path_of("GET\n/health"), "/");
    assert_eq!(path_of(""), "/");
    assert_eq!(path_of("  GET \t /metrics"), "/metrics");
    assert_eq!(request_path(&b"GET /\xffx HTTP".to_vec()), "/\u{fffd}x");
    assert_eq!(request_path(&"GET /h\u{e4}lth".as_bytes().to_vec()), "/h\u{e4}lth");
    assert_eq!(route("/health"), Route::Health);
    assert_eq!(route("/metrics"), Route::Metrics);
    assert_eq!(route("/healthz"), Route::NotFound);
}

// Sessions

#[test]
fn connects_fine_with_no_auth_configured_and_no_header_sent() {
    assert_eq!(check_auth(None, None), Ok(()));
    assert_eq!(check_auth(Some("Basic x"), None), Ok(()));
}

#[test]
fn rejects_connection_with_missing_bearer_token() {
    assert_eq!(check_auth(None, Some("secret-token")), Err(Refusal::Missing));
    assert_eq!(check_auth(Some("secret-token"), Some("secret-token")), Err(Refusal::Missing));
    assert_eq!(Refusal::Missing.status(), 401);
    assert_eq!(Refusal::Missing.body(), "missing bearer token");
}

#[test]
fn rejects_connection_with_wrong_bearer_token() {
    assert_eq!(check_auth(Some("Bearer wrong-token"), Some("secret-token")), Err(Refusal::Invalid));
    assert_eq!(Refusal::Invalid.status(), 403);
    assert_eq!(Refusal::Invalid.body(), "invalid bearer token");
}

#[test]
fn accepts_connection_with_correct_bearer_token() {
    assert_eq!(check_auth(Some("Bearer secret-token"), Some("secret-token")), Ok(()));
}

fn reading(vpin: Option<f64>, vpin_cdf: Option<f64>, trades_in_bucket: u32) -> ServerMessage {
    ServerMessage::Reading {
        exchange: "binance".to_string(),
        symbol: "BTCUSDT".to_string(),
        bucket_id: 1,
        ts_close_ns: 42,
        trades_in_bucket,
        vpin: vpin.map(d),
        vpin_cdf: vpin_cdf.map(d),
    }
}

#[test]
fn subscribes_and_receives_broadcast_reading() {
    let req = SubscribeRequest { exchange: "Binance".to_string(), symbol: "btcusdt".to_string() };
    let key = subscription(FirstFrame::Text(Ok(req))).unwrap();
    assert_eq!(key, "binance:BTCUSDT");
    let mut entry = StreamEntry::new("binance".to_string(), "BTCUSDT".to_string());
    assert!(matches!(open_session(key.clone(), Some(&entry)), Opening::Subscribed(None)));
    entry.last_message = Some(reading(None, None, 2));
    assert!(matches!(
        open_session(key, Some(&entry)),
        Opening::Subscribed(Some(m)) if m == reading(None, None, 2)
    ));
    let msg = reading(Some(0.5), Some(0.9), 5);
    assert!(matches!(
        session_step(SessionEvent::Published(msg.clone())),
        SessionAction::Send(m) if m == msg
    ));
}

#[test]
fn unknown_stream_gets_an_error_and_disconnect() {
    match open_session("binance:DOGEUSDT".to_string(), None) {
        Opening::Unknown(ServerMessage::Error { message }, ServiceError::UnknownStream(key)) => {
            assert_eq!(message, "unknown stream: binance:DOGEUSDT");
            assert_eq!(key, "binance:DOGEUSDT");
        }
        _ => panic!("expected an error"),
    }
}

#[test]
fn a_session_needs_a_request_first() {
    assert!(matches!(subscription(FirstFrame::Other), Err(ServiceError::NoSubscribeRequest)));
    let bad = serde_json::from_str::<serde_json::Value>("{").unwrap_err();
    assert!(matches!(subscription(FirstFrame::Text(Err(bad))), Err(ServiceError::Json(_))));
}

#[test]
fn a_session_reacts_to_each_event() {
    assert!(matches!(session_step(SessionEvent::Lagged(9)), SessionAction::Continue));
    assert!(matches!(session_step(SessionEvent::StreamClosed), SessionAction::End));
    assert!(matches!(session_step(SessionEvent::Ping(vec![7])), SessionAction::Pong(p) if p == vec![7]));
    assert!(matches!(session_step(SessionEvent::Closed), SessionAction::End));
    assert!(matches!(session_step(SessionEvent::Failed), SessionAction::Fail));
    assert!(matches!(session_step(SessionEvent::Other), SessionAction::Continue));
}

// Workers

fn engine_cfg() -> VpinEngineConfig {
    VpinEngineConfig {
        bucket_volume: d(10.0),
        sigma_window: 3,
        vpin_window: 3,
        cdf_window: None,
        confidence_interval: None,
    }
}

fn make_trade(price: f64, qty: f64, ts_ns: u64, seq: u64) -> NormalizedTrade {
    NormalizedTrade {
        price: Price::new((price * 1e8) as u64),
        qty: Qty::new((qty * 1e8) as u64),
        ts_exchange_ns: ts_ns,
        ts_recv_ns: ts_ns,
        symbol: Symbol::from_bytes(b"BTCUSDT"),
        exchange: Exchange::Binance,
        taker_side: TakerSide::Buy,
        sequence: seq,
    }
}

fn worker(exchange: &str, symbol: &str, entry: &mut StreamEntry) -> Worker {
    match Worker::new(exchange.to_string(), symbol.to_string(), engine_cfg(), entry) {
        Ok(w) => w,
        Err(e) => panic!("{e:?}"),
    }
}

#[test]
fn emits_readings_and_heartbeats() {
    let (key, mut entry) = registration(&valid_stream());
    assert_eq!(key, "binance:BTCUSDT");
    let mut w = worker("binance", "BTCUSDT", &mut entry);
    assert!(entry.health.worker_alive);
    let mut saw_reading = false;
    let mut price = 100.0;
    for i in 0..100u64 {
        price += if i % 2 == 0 { 0.7 } else { -0.4 };
        assert!(w.has_room(&entry));
        if let Some(msg) = w.on_trade(&unit, &make_trade(price, 10.0, i, i), &mut entry) {
            assert_eq!(entry.last_message.as_ref(), Some(&msg));
            if let ServerMessage::Reading { vpin, trades_in_bucket, exchange, symbol, .. } = msg {
                assert!(trades_in_bucket > 0);
                assert_eq!((exchange.as_str(), symbol.as_str()), ("binance", "BTCUSDT"));
                saw_reading |= vpin.is_some();
            }
        }
    }
    assert!(saw_reading, "expected at least one non-warmup reading over 100 trades");
    w.on_closed(&mut entry);
    assert!(!entry.health.worker_alive);
    assert_eq!(entry.health.trades_processed, 100);
    assert!(entry.health.readings_emitted > 0);
    assert_eq!(entry.health.last_trade_ts_ns, Some(99));
    assert!(entry.last_message.is_some());
}

#[test]
fn heartbeat_fires_even_with_no_trades() {
    let mut entry = StreamEntry::new("bybit".to_string(), "ETHUSDT".to_string());
    let w = worker("bybit", "ETHUSDT", &mut entry);
    assert_eq!(w.on_heartbeat(5, &mut entry), ServerMessage::Heartbeat { ts_ns: 5 });
    assert_eq!(w.on_heartbeat(6, &mut entry), ServerMessage::Heartbeat { ts_ns: 6 });
    assert_eq!(entry.health.last_heartbeat_ts_ns, Some(6));
    assert_eq!(entry.last_message, Some(ServerMessage::Heartbeat { ts_ns: 6 }));
}

#[test]
fn worker_exits_when_trade_channel_closes() {
    let mut entry = StreamEntry::new("hyperliquid".to_string(), "BTC".to_string());
    let w = worker("hyperliquid", "BTC", &mut entry);
    w.on_closed(&mut entry);
    assert!(!entry.health.worker_alive);
    let mut bad = engine_cfg();
    bad.vpin_window = 0;
    assert!(Worker::new("x".to_string(), "y".to_string(), bad, &mut entry).is_err());
    assert!(!entry.health.worker_alive);
}

// The subscriber's state

fn live(vpin: f64, vpin_cdf: Option<f64>, trades_in_bucket: u32) -> ToxicityState {
    ToxicityState::Live { vpin: d(vpin), vpin_cdf: vpin_cdf.map(d), trades_in_bucket }
}

#[test]
fn is_live_only_true_for_live() {
    assert!(live(0.1, None, 5).is_live());
    assert!(!ToxicityState::Warming { trades_in_bucket: 0 }.is_live());
    assert!(!ToxicityState::Connecting.is_live());
    assert!(!ToxicityState::Stale.is_live());
}

#[test]
fn is_stale_only_true_for_stale_not_connecting() {
    assert!(ToxicityState::Stale.is_stale());
    assert!(!ToxicityState::Connecting.is_stale());
    assert!(!ToxicityState::Warming { trades_in_bucket: 0 }.is_stale());
}

fn thirty() -> Duration {
    Duration::from_secs(30)
}

#[test]
fn goes_from_connecting_to_live_on_a_reading() {
    let start = ToxicityState::Stale.after(&ClientEvent::Connecting, thirty());
    assert_eq!(start, ToxicityState::Connecting);
    let state = start.after(&ClientEvent::Message(reading(Some(0.42), Some(0.9), 12)), thirty());
    assert_eq!(state, live(0.42, Some(0.9), 12));
}

#[test]
fn warmup_reading_maps_to_warming_not_live() {
    let state =
        ToxicityState::Connecting.after(&ClientEvent::Message(reading(None, None, 3)), thirty());
    assert_eq!(state, ToxicityState::Warming { trades_in_bucket: 3 });
    assert!(!state.is_live());
}

#[test]
fn goes_stale_when_messages_stop_arriving() {
    let limit = Duration::from_millis(100);
    let beat = ClientEvent::Message(ServerMessage::Heartbeat { ts_ns: 0 });
    let state = ToxicityState::Connecting.after(&beat, limit);
    assert_eq!(state, ToxicityState::Warming { trades_in_bucket: 0 });
    let same = state.after(&ClientEvent::Silence(Duration::from_millis(100)), limit);
    assert_eq!(same, state);
    let state = state.after(&ClientEvent::Silence(Duration::from_millis(101)), limit);
    assert!(state.is_stale());
    assert_eq!(state.after(&beat, limit), ToxicityState::Warming { trades_in_bucket: 0 });
    assert_eq!(live(0.5, None, 1).after(&ClientEvent::Ended, limit), ToxicityState::Stale);
    assert_eq!(check_interval(limit), Duration::from_millis(50));
    assert_eq!(check_interval(Duration::from_millis(1)), Duration::from_millis(1));
}

#[test]
fn heartbeat_does_not_downgrade_an_existing_live_reading() {
    let state = ToxicityState::Connecting
        .after(&ClientEvent::Message(reading(Some(0.7), Some(0.95), 5)), thirty());
    let beat = ClientEvent::Message(ServerMessage::Heartbeat { ts_ns: 1 });
    assert_eq!(state.after(&beat, thirty()), live(0.7, Some(0.95), 5));
    assert_eq!(state.after(&ClientEvent::Malformed, thirty()), state);
    let error = ClientEvent::Message(ServerMessage::Error { message: "x".to_string() });
    assert_eq!(state.after(&error, thirty()), state);
}
