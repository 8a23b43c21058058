//! What the service is told to run: streams, their parameters, and the
//! service's own settings.

use crate::backoff::{BackoffConfig, Duration, NANOS_PER_MILLI, NANOS_PER_SEC};
use crate::double::Double;
use crate::error::vpin_error_text;
use crate::numeral::{debug_quoted, is_writer, quoted, read_u64, Digits};
use crate::text::{lower, same_text, to_lower, to_upper, unsigned, upper, views};
use crate::trade::Exchange;
use crate::vpin::{config_error, VpinEngine, VpinEngineConfig};
use vstd::prelude::*;
use vstd::string::*;

verus! {

/// The exchange of a name, its case aside.
pub open spec fn named_exchange(s: Seq<char>) -> Option<Exchange> {
    if lower(s) == "binance"@ {
        Some(Exchange::Binance)
    } else if lower(s) == "bybit"@ {
        Some(Exchange::Bybit)
    } else if lower(s) == "hyperliquid"@ {
        Some(Exchange::Hyperliquid)
    } else {
        None
    }
}

/// Case-insensitive: an operator types the name as a venue's own docs happen
/// to write it.
pub fn parse_exchange(s: &str) -> (r: Option<Exchange>)
    ensures
        r == named_exchange(s@),
{
    let name: String = to_lower(s);
    if same_text(name.as_str(), "binance") {
        Some(Exchange::Binance)
    } else if same_text(name.as_str(), "bybit") {
        Some(Exchange::Bybit)
    } else if same_text(name.as_str(), "hyperliquid") {
        Some(Exchange::Hyperliquid)
    } else {
        None
    }
}

/// The key of an exchange and a symbol: the one in lower case, the other in
/// upper case, with a colon between them.
pub open spec fn key_of(exchange: Seq<char>, symbol: Seq<char>) -> Seq<char> {
    lower(exchange) + ":"@ + upper(symbol)
}

/// The key under which a stream is registered and subscribed to.
pub fn stream_key(exchange: &str, symbol: &str) -> (r: String)
    ensures
        r@ == key_of(exchange@, symbol@),
{
    to_lower(exchange).concat(":").concat(to_upper(symbol).as_str())
}

/// One exchange and symbol to track, with its estimator's parameters. The
/// bucket volume is specific to the instrument: there is no sane default.
#[derive(Debug)]
pub struct StreamConfig {
    pub exchange: String,
    pub symbol: String,
    pub bucket_volume: Double,
    pub sigma_window: usize,
    pub vpin_window: usize,
    pub cdf_window: Option<usize>,
    /// Where the stream's reconnect backoff starts, if not at the default.
    pub backoff_base_ms: Option<u64>,
    /// Where the stream's reconnect backoff ends, if not at the default.
    pub backoff_max_secs: Option<u64>,
}

impl StreamConfig {
    /// The key of the stream.
    pub open spec fn key(&self) -> Seq<char> {
        key_of(self.exchange@, self.symbol@)
    }

    /// The estimator's settings: a live stream takes no interval.
    pub open spec fn engine(&self) -> VpinEngineConfig {
        VpinEngineConfig {
            bucket_volume: self.bucket_volume,
            sigma_window: self.sigma_window,
            vpin_window: self.vpin_window,
            cdf_window: self.cdf_window,
            confidence_interval: None,
        }
    }

    /// The reconnect backoff: what the stream does not set stays at its
    /// default.
    pub fn backoff_config(&self) -> (r: BackoffConfig)
        ensures
            r.base@ == (match self.backoff_base_ms {
                Some(ms) => ms as nat * NANOS_PER_MILLI as nat,
                None => 250 * NANOS_PER_MILLI as nat,
            }),
            r.max@ == (match self.backoff_max_secs {
                Some(s) => s as nat * NANOS_PER_SEC as nat,
                None => 30 * NANOS_PER_SEC as nat,
            }),
    {
        let default: BackoffConfig = BackoffConfig::default();
        BackoffConfig {
            base: match self.backoff_base_ms {
                Some(ms) => Duration::from_millis(ms),
                None => default.base,
            },
            max: match self.backoff_max_secs {
                Some(s) => Duration::from_secs(s),
                None => default.max,
            },
        }
    }
}

impl Clone for StreamConfig {
    fn clone(&self) -> (r: Self)
        ensures
            r.exchange@ == self.exchange@,
            r.symbol@ == self.symbol@,
            r.bucket_volume == self.bucket_volume,
            r.sigma_window == self.sigma_window,
            r.vpin_window == self.vpin_window,
            r.cdf_window == self.cdf_window,
            r.backoff_base_ms == self.backoff_base_ms,
            r.backoff_max_secs == self.backoff_max_secs,
    {
        StreamConfig {
            exchange: self.exchange.as_str().to_owned(),
            symbol: self.symbol.as_str().to_owned(),
            bucket_volume: self.bucket_volume,
            sigma_window: self.sigma_window,
            vpin_window: self.vpin_window,
            cdf_window: self.cdf_window,
            backoff_base_ms: self.backoff_base_ms,
            backoff_max_secs: self.backoff_max_secs,
        }
    }
}

/// What is wrong with a stream, if anything is: its exchange's name first,
/// then its parameters.
pub open spec fn stream_error<W: Fn(Double, Digits) -> String>(w: W, s: StreamConfig) -> Option<
    Seq<char>,
> {
    if named_exchange(s.exchange@) is None {
        Some("unknown exchange: "@ + debug_quoted(s.exchange@))
    } else {
        match config_error(s.engine()) {
            Some(e) => Some("invalid VPIN config: "@ + vpin_error_text(w, e)),
            None => None,
        }
    }
}

/// Validates a stream's exchange name and parameters. Shared between startup,
/// where an invalid stream is fatal, and reloading, where it is skipped.
pub fn resolve_stream<W: Fn(Double, Digits) -> String>(writer: &W, s: &StreamConfig) -> (r: Result<
    (Exchange, VpinEngineConfig),
    String,
>)
    requires
        is_writer(*writer),
    ensures
        match r {
            Ok((exchange, cfg)) => {
                &&& stream_error(*writer, *s) is None
                &&& named_exchange(s.exchange@) == Some(exchange)
                &&& cfg == s.engine()
            },
            Err(e) => stream_error(*writer, *s) == Some(e@),
        },
{
    let exchange: Exchange = match parse_exchange(s.exchange.as_str()) {
        Some(e) => e,
        None => {
            let head: String = "unknown exchange: ".to_owned();
            return Err(head.concat(quoted(s.exchange.as_str()).as_str()));
        },
    };
    let cfg: VpinEngineConfig = VpinEngineConfig {
        bucket_volume: s.bucket_volume,
        sigma_window: s.sigma_window,
        vpin_window: s.vpin_window,
        cdf_window: s.cdf_window,
        confidence_interval: None,
    };
    // Making an engine is the validation: what it accepts is what is valid.
    match VpinEngine::new(cfg) {
        Ok(_) => Ok((exchange, cfg)),
        Err(e) => {
            let head: String = "invalid VPIN config: ".to_owned();
            Err(head.concat(e.message(writer).as_str()))
        },
    }
}

/// The complaint about an invalid stream at startup.
pub open spec fn startup_error<W: Fn(Double, Digits) -> String>(w: W, s: StreamConfig) -> Seq<
    char,
> {
    "invalid stream "@ + s.exchange@ + ":"@ + s.symbol@ + ": "@ + stream_error(w, s)->0
}

/// Validates every stream before any is started: one invalid stream fails the
/// whole startup, with the first one's error.
pub fn resolve_all<W: Fn(Double, Digits) -> String>(writer: &W, streams: &Vec<StreamConfig>) -> (r:
    Result<Vec<(Exchange, VpinEngineConfig)>, String>)
    requires
        is_writer(*writer),
    ensures
        match r {
            Ok(resolved) => {
                &&& resolved@.len() == streams@.len()
                &&& forall|i: int|
                    0 <= i < streams@.len() ==> {
                        &&& stream_error(*writer, #[trigger] streams@[i]) is None
                        &&& named_exchange(streams@[i].exchange@) == Some(resolved@[i].0)
                        &&& resolved@[i].1 == streams@[i].engine()
                    }
            },
            Err(e) => exists|i: int|
                {
                    &&& 0 <= i < streams@.len()
                    &&& stream_error(*writer, #[trigger] streams@[i]) is Some
                    &&& forall|j: int|
                        0 <= j < i ==> stream_error(*writer, #[trigger] streams@[j]) is None
                    &&& e@ == startup_error(*writer, streams@[i])
                },
        },
{
    let mut resolved: Vec<(Exchange, VpinEngineConfig)> = Vec::new();
    let mut i: usize = 0;
    while i < streams.len()
        invariant
            i <= streams@.len(),
            is_writer(*writer),
            resolved@.len() == i,
            forall|j: int|
                0 <= j < i ==> {
                    &&& stream_error(*writer, #[trigger] streams@[j]) is None
                    &&& named_exchange(streams@[j].exchange@) == Some(resolved@[j].0)
                    &&& resolved@[j].1 == streams@[j].engine()
                },
        decreases streams.len() - i,
    {
        match resolve_stream(writer, &streams[i]) {
            Ok(pair) => {
                resolved.push(pair);
            },
            Err(e) => {
                let head: String = "invalid stream ".to_owned();
                let named: String = head.concat(streams[i].exchange.as_str()).concat(":").concat(
                    streams[i].symbol.as_str(),
                );
                let text: String = named.concat(": ").concat(e.as_str());
                assert(stream_error(*writer, streams@[i as int]) is Some);
                assert(text@ =~= startup_error(*writer, streams@[i as int]));
                return Err(text);
            },
        }
        i += 1;
    }
    Ok(resolved)
}

/// What a reload does about one stream of the file.
pub enum Reload {
    /// It is running already, whatever the file says of it now.
    Running,
    /// It is new and valid: start it.
    Start(Exchange, VpinEngineConfig),
    /// It is new and invalid: report this and go on.
    Skip(String),
}

/// Whether a stream with this key runs by the time a reload comes to the
/// `i`-th stream of the file: it ran before the reload, or the reload started
/// it on the way.
pub open spec fn runs_by<W: Fn(Double, Digits) -> String>(
    w: W,
    known: Seq<Seq<char>>,
    streams: Seq<StreamConfig>,
    i: int,
    key: Seq<char>,
) -> bool {
    ||| known.contains(key)
    ||| exists|j: int|
        0 <= j < i && (#[trigger] streams[j]).key() == key && stream_error(w, streams[j]) is None
}

/// What a reload has to do about the `i`-th stream of the file.
pub open spec fn reload_of<W: Fn(Double, Digits) -> String>(
    w: W,
    known: Seq<Seq<char>>,
    streams: Seq<StreamConfig>,
    i: int,
    action: Reload,
) -> bool {
    if runs_by(w, known, streams, i, streams[i].key()) {
        action is Running
    } else {
        match stream_error(w, streams[i]) {
            Some(e) => action matches Reload::Skip(t) && t@ == e,
            None => action matches Reload::Start(exchange, cfg) && named_exchange(
                streams[i].exchange@,
            ) == Some(exchange) && cfg == streams[i].engine(),
        }
    }
}

/// Whether a text is among some texts.
fn is_among(texts: &Vec<String>, key: &str) -> (r: bool)
    ensures
        r == views(texts@).contains(key@),
{
    let mut i: usize = 0;
    while i < texts.len()
        invariant
            i <= texts@.len(),
            forall|k: int| 0 <= k < i ==> views(texts@)[k] != key@,
        decreases texts.len() - i,
    {
        if same_text(texts[i].as_str(), key) {
            assert(views(texts@)[i as int] == key@);
            return true;
        }
        i += 1;
    }
    false
}

/// Compares a freshly read streams file with the streams that run. New and
/// valid ones are to be started, new and invalid ones reported; a running one
/// is left alone, and none is ever stopped because it is gone from the file.
pub fn plan_reload<W: Fn(Double, Digits) -> String>(
    writer: &W,
    known: &Vec<String>,
    streams: &Vec<StreamConfig>,
) -> (r: Vec<Reload>)
    requires
        is_writer(*writer),
    ensures
        r@.len() == streams@.len(),
        forall|i: int|
            0 <= i < streams@.len() ==> reload_of(
                *writer,
                views(known@),
                streams@,
                i,
                #[trigger] r@[i],
            ),
{
    let mut plan: Vec<Reload> = Vec::new();
    let mut started: Vec<String> = Vec::new();
    let mut i: usize = 0;
    while i < streams.len()
        invariant
            i <= streams@.len(),
            is_writer(*writer),
            plan@.len() == i,
            forall|j: int|
                0 <= j < i ==> reload_of(
                    *writer,
                    views(known@),
                    streams@,
                    j,
                    #[trigger] plan@[j],
                ),
            forall|key: Seq<char>|
                #![trigger runs_by(*writer, views(known@), streams@, i as int, key)]
                runs_by(*writer, views(known@), streams@, i as int, key) <==> (views(
                    known@,
                ).contains(key) || views(started@).contains(key)),
        decreases streams.len() - i,
    {
        let s: &StreamConfig = &streams[i];
        let key: String = stream_key(s.exchange.as_str(), s.symbol.as_str());
        let ghost this = s.key();
        let ghost before = started@;
        let runs: bool = is_among(known, key.as_str()) || is_among(&started, key.as_str());
        assert(runs == runs_by(*writer, views(known@), streams@, i as int, this));
        if runs {
            plan.push(Reload::Running);
        } else {
            match resolve_stream(writer, s) {
                Ok((exchange, cfg)) => {
                    plan.push(Reload::Start(exchange, cfg));
                    started.push(key);
                    assert(views(started@) =~= views(before).push(this));
                },
                Err(e) => {
                    plan.push(Reload::Skip(e));
                },
            }
        }
        proof {
            assert forall|k: Seq<char>|
                #![trigger runs_by(*writer, views(known@), streams@, i + 1, k)]
                runs_by(*writer, views(known@), streams@, i + 1, k) <==> (views(known@).contains(k)
                    || views(started@).contains(k)) by {
                let a = runs_by(*writer, views(known@), streams@, i as int, k);
                let b = runs_by(*writer, views(known@), streams@, i + 1, k);
                assert(streams@[i as int].key() == this);
                assert(a ==> b);
                if b && !a {
                    assert(this == k && stream_error(*writer, streams@[i as int]) is None);
                    assert(views(started@)[started@.len() - 1] == k);
                }
                if views(started@).contains(k) {
                    let at = choose|at: int| 0 <= at < views(started@).len() && views(started@)[at] == k;
                    if at < before.len() {
                        assert(views(before)[at] == k);
                        assert(views(before).contains(k));
                    }
                }
                if views(before).contains(k) {
                    let at = choose|at: int| 0 <= at < views(before).len() && views(before)[at] == k;
                    assert(views(started@)[at] == k);
                }
            }
        }
        i += 1;
    }
    plan
}

/// A reload starts no stream that runs, and none twice: two streams of the
/// file with one key are never both started.
pub proof fn law_reload_starts_a_key_once<W: Fn(Double, Digits) -> String>(
    w: W,
    known: Seq<Seq<char>>,
    streams: Seq<StreamConfig>,
    i: int,
    j: int,
    a: Reload,
    b: Reload,
)
    requires
        0 <= i < j < streams.len(),
        streams[i].key() == streams[j].key(),
        reload_of(w, known, streams, i, a),
        reload_of(w, known, streams, j, b),
    ensures
        !(a is Start && b is Start),
        known.contains(streams[i].key()) ==> a is Running && b is Running,
{
}

/// The service's own settings.
pub struct ServiceConfig {
    pub bind_addr: String,
    pub streams: Vec<StreamConfig>,
    pub heartbeat_interval: Duration,
    /// None means that nobody is asked for a token. Fine where only trusted
    /// hosts can reach the address, and nowhere else.
    pub auth_token: Option<String>,
}

/// A number of seconds as an operator sets it, or the default where it is not
/// set or is no number that fits.
pub open spec fn seconds_set(value: Option<Seq<char>>, default: u64) -> nat {
    match value {
        Some(text) => match unsigned(text) {
            Some(n) if n <= u64::MAX => n,
            _ => default as nat,
        },
        None => default as nat,
    }
}

pub open spec fn optional_view(s: Option<String>) -> Option<Seq<char>> {
    match s {
        Some(t) => Some(t@),
        None => None,
    }
}

/// Reads a number of seconds.
pub fn optional_u64(value: Option<String>, default: u64) -> (r: u64)
    ensures
        r == seconds_set(optional_view(value), default),
{
    match value {
        None => default,
        Some(text) => match read_u64(text.as_str()) {
            Ok(n) => n,
            Err(_) => default,
        },
    }
}

impl ServiceConfig {
    /// The settings from what the environment holds and the streams that were
    /// read from `streams_path`. An empty token is no token; without streams
    /// there is nothing to run, and that is an error.
    pub fn from_settings(
        streams_path: &str,
        streams: Vec<StreamConfig>,
        bind_addr: Option<String>,
        heartbeat_secs: Option<String>,
        auth_token: Option<String>,
    ) -> (r: Result<Self, String>)
        ensures
            match r {
                Ok(cfg) => {
                    &&& streams@.len() > 0
                    &&& cfg.streams == streams
                    &&& cfg.bind_addr@ == (match bind_addr {
                        Some(a) => a@,
                        None => "0.0.0.0:9700"@,
                    })
                    &&& cfg.heartbeat_interval@ == seconds_set(optional_view(heartbeat_secs), 5)
                        * NANOS_PER_SEC as nat
                    &&& optional_view(cfg.auth_token) == (match auth_token {
                        Some(t) if t@.len() > 0 => Some(t@),
                        _ => None,
                    })
                },
                Err(e) => streams@.len() == 0 && e@ == "GEIGER_STREAMS_FILE ("@ + streams_path@
                    + ") has zero streams configured, nothing to run"@,
            },
    {
        if streams.len() == 0 {
            let head: String = "GEIGER_STREAMS_FILE (".to_owned();
            return Err(
                head.concat(streams_path).concat(
                    ") has zero streams configured, nothing to run",
                ),
            );
        }
        let token: Option<String> = match auth_token {
            None => None,
            Some(t) => {
                if t.as_str().unicode_len() == 0 {
                    None
                } else {
                    Some(t)
                }
            },
        };
        Ok(
            ServiceConfig {
                bind_addr: match bind_addr {
                    Some(a) => a,
                    None => "0.0.0.0:9700".to_owned(),
                },
                streams,
                heartbeat_interval: Duration::from_secs(optional_u64(heartbeat_secs, 5)),
                auth_token: token,
            },
        )
    }
}

/// Two spellings of one stream that differ in case alone have one key.
pub proof fn law_keys_ignore_case(e1: Seq<char>, s1: Seq<char>, e2: Seq<char>, s2: Seq<char>)
    requires
        lower(e1) == lower(e2),
        upper(s1) == upper(s2),
    ensures
        key_of(e1, s1) == key_of(e2, s2),
        named_exchange(e1) == named_exchange(e2),
{
}

/// A stream's engine has the stream's own settings, each in its own place, and
/// takes no interval.
pub proof fn law_a_stream_runs_by_its_settings(s: StreamConfig)
    ensures
        s.engine().bucket_volume == s.bucket_volume,
        s.engine().sigma_window == s.sigma_window,
        s.engine().vpin_window == s.vpin_window,
        s.engine().cdf_window == s.cdf_window,
        s.engine().confidence_interval is None,
{
}

} // verus!
