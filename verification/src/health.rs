//! The operational endpoint: `/health`, a JSON snapshot for people and uptime
//! checks, and `/metrics`, the same counters in the Prometheus text format.

use crate::json::{
    entry_trees, json_bool, json_count, json_object, json_optional, json_string, json_text,
    json_tree, lemma_own_members, members, optional_count, to_text, JsonTree,
};
use crate::registry::StreamEntry;
use crate::text::{
    decimal, decimal_text, end_lines, ended, first_line, lemma_views_append, line_of, same_text,
    split_words, views, words,
};
use vstd::prelude::*;
use vstd::string::*;
use vstd::utf8::{decode_utf8, encode_utf8, valid_utf8};

verus! {

/// Bytes as the standard library reads them as text, come what may.
pub uninterp spec fn utf8_lossy(bytes: Seq<u8>) -> Seq<char>;

/// `String::from_utf8_lossy` of the standard library decodes UTF-8, and puts
/// replacement characters where the bytes are none. Where it puts them is not
/// spelled out here.
#[verifier::external_body]
fn lossy_text(bytes: &Vec<u8>) -> (r: String)
    ensures
        r@ == utf8_lossy(bytes@),
        valid_utf8(bytes@) ==> r@ == decode_utf8(bytes@),
{
    String::from_utf8_lossy(bytes).into_owned()
}

/// The path that a request's text asks for: the second word of its first line,
/// or the root.
pub open spec fn path_in(request: Seq<char>) -> Seq<char> {
    let line = words(first_line(request));
    if line.len() > 1 {
        line[1]
    } else {
        "/"@
    }
}

/// The path in a request's text. Headers and body do not matter.
pub fn path_of(request: &str) -> (r: String)
    ensures
        r@ == path_in(request@),
{
    let found: Vec<String> = split_words(line_of(request).as_str());
    if found.len() > 1 {
        assert(views(found@)[1] == found@[1]@);
        found[1].as_str().to_owned()
    } else {
        "/".to_owned()
    }
}

/// The path that a request asks for.
pub fn request_path(request: &Vec<u8>) -> (r: String)
    ensures
        r@ == path_in(utf8_lossy(request@)),
        valid_utf8(request@) ==> r@ == path_in(decode_utf8(request@)),
{
    path_of(lossy_text(request).as_str())
}

/// What there is to serve.
#[derive(Clone, Copy, Debug, PartialEq, Eq, Structural)]
pub enum Route {
    Health,
    Metrics,
    NotFound,
}

pub open spec fn route_to(path: Seq<char>) -> Route {
    if path == "/health"@ {
        Route::Health
    } else if path == "/metrics"@ {
        Route::Metrics
    } else {
        Route::NotFound
    }
}

pub fn route(path: &str) -> (r: Route)
    ensures
        r == route_to(path@),
{
    if same_text(path, "/health") {
        Route::Health
    } else if same_text(path, "/metrics") {
        Route::Metrics
    } else {
        Route::NotFound
    }
}

/// One stream in the snapshot.
pub open spec fn stream_entries(e: StreamEntry) -> Seq<(Seq<char>, JsonTree)> {
    seq![
        ("exchange"@, JsonTree::Text(e.exchange@)),
        ("symbol"@, JsonTree::Text(e.symbol@)),
        ("alive"@, JsonTree::Bool(e.health.worker_alive)),
        ("trades_processed"@, JsonTree::Count(e.health.trades_processed as nat)),
        ("readings_emitted"@, JsonTree::Count(e.health.readings_emitted as nat)),
        ("last_trade_ts_ns"@, optional_count(e.health.last_trade_ts_ns)),
        ("last_heartbeat_ts_ns"@, optional_count(e.health.last_heartbeat_ts_ns)),
    ]
}

/// The streams of the snapshot, by their keys.
pub open spec fn streams_entries(streams: Seq<(String, StreamEntry)>) -> Seq<
    (Seq<char>, JsonTree),
> {
    streams.map_values(
        |s: (String, StreamEntry)| (s.0@, JsonTree::Object(members(stream_entries(s.1)))),
    )
}

/// The snapshot.
pub open spec fn health_tree(streams: Seq<(String, StreamEntry)>) -> JsonTree {
    JsonTree::Object(
        members(
            seq![
                ("status"@, JsonTree::Text("ok"@)),
                ("stream_count"@, JsonTree::Count(streams.len())),
                ("streams"@, JsonTree::Object(members(streams_entries(streams)))),
            ],
        ),
    )
}

fn stream_json(e: &StreamEntry) -> (r: serde_json::Value)
    ensures
        json_tree(r) == JsonTree::Object(members(stream_entries(*e))),
{
    let mut es: Vec<(String, serde_json::Value)> = Vec::new();
    es.push(("exchange".to_owned(), json_string(e.exchange.as_str())));
    es.push(("symbol".to_owned(), json_string(e.symbol.as_str())));
    es.push(("alive".to_owned(), json_bool(e.health.worker_alive)));
    es.push(("trades_processed".to_owned(), json_count(e.health.trades_processed)));
    es.push(("readings_emitted".to_owned(), json_count(e.health.readings_emitted)));
    es.push(("last_trade_ts_ns".to_owned(), json_optional(e.health.last_trade_ts_ns)));
    es.push(("last_heartbeat_ts_ns".to_owned(), json_optional(e.health.last_heartbeat_ts_ns)));
    assert(entry_trees(es@) =~= stream_entries(*e));
    json_object(es)
}

/// The snapshot of all streams, as JSON text.
pub fn render_health(streams: &Vec<(String, StreamEntry)>) -> (r: String)
    ensures
        r@ == json_text(health_tree(streams@)),
{
    let mut each: Vec<(String, serde_json::Value)> = Vec::new();
    let mut i: usize = 0;
    let ghost wanted = streams_entries(streams@);
    while i < streams.len()
        invariant
            i <= streams@.len(),
            wanted == streams_entries(streams@),
            entry_trees(each@) =~= wanted.take(i as int),
        decreases streams.len() - i,
    {
        let entry: (String, serde_json::Value) = (
            streams[i].0.as_str().to_owned(),
            stream_json(&streams[i].1),
        );
        assert(entry_trees(each@.push(entry)) =~= entry_trees(each@).push(wanted[i as int]));
        assert(wanted.take(i + 1) =~= wanted.take(i as int).push(wanted[i as int]));
        each.push(entry);
        i += 1;
    }
    assert(entry_trees(each@) =~= wanted);
    let mut body: Vec<(String, serde_json::Value)> = Vec::new();
    body.push(("status".to_owned(), json_string("ok")));
    body.push(("stream_count".to_owned(), json_count(streams.len() as u64)));
    body.push(("streams".to_owned(), json_object(each)));
    assert(entry_trees(body@) =~= seq![
        ("status"@, JsonTree::Text("ok"@)),
        ("stream_count"@, JsonTree::Count(streams@.len())),
        ("streams"@, JsonTree::Object(members(wanted))),
    ]);
    to_text(&json_object(body))
}

/// A metric's declaration: what it means and what kind it is.
pub open spec fn metric_header(name: Seq<char>, kind: Seq<char>, help: Seq<char>) -> Seq<
    Seq<char>,
> {
    seq!["# HELP "@ + name + " "@ + help + "."@, "# TYPE "@ + name + " "@ + kind]
}

/// All declarations, each metric's once.
pub open spec fn metrics_header() -> Seq<Seq<char>> {
    metric_header(
        "geiger_trades_processed_total"@,
        "counter"@,
        "Trades processed for this stream since the worker started"@,
    ) + metric_header(
        "geiger_readings_emitted_total"@,
        "counter"@,
        "VPIN readings emitted for this stream since the worker started"@,
    ) + metric_header(
        "geiger_stream_alive"@,
        "gauge"@,
        "1 if the stream's worker is still running, 0 if its trade-ingest channel closed"@,
    ) + metric_header(
        "geiger_last_trade_timestamp_ns"@,
        "gauge"@,
        "Exchange timestamp (ns) of the last trade processed for this stream"@,
    ) + metric_header(
        "geiger_last_heartbeat_timestamp_ns"@,
        "gauge"@,
        "Timestamp (ns) of the last heartbeat sent for this stream"@,
    )
}

/// One value of one stream.
pub open spec fn metric_line(
    name: Seq<char>,
    exchange: Seq<char>,
    symbol: Seq<char>,
    value: nat,
) -> Seq<char> {
    name + "{exchange=\""@ + exchange + "\",symbol=\""@ + symbol + "\"} "@ + decimal(value)
}

/// One value of one stream, if there is one: a missing timestamp is left out,
/// since a placeholder could not be told from a real one.
pub open spec fn optional_line(
    name: Seq<char>,
    exchange: Seq<char>,
    symbol: Seq<char>,
    value: Option<u64>,
) -> Seq<Seq<char>> {
    match value {
        Some(n) => seq![metric_line(name, exchange, symbol, n as nat)],
        None => Seq::empty(),
    }
}

/// All values of one stream.
pub open spec fn stream_lines(e: StreamEntry) -> Seq<Seq<char>> {
    let (x, s, h) = (e.exchange@, e.symbol@, e.health);
    seq![
        metric_line("geiger_trades_processed_total"@, x, s, h.trades_processed as nat),
        metric_line("geiger_readings_emitted_total"@, x, s, h.readings_emitted as nat),
        metric_line("geiger_stream_alive"@, x, s, if h.worker_alive {
            1
        } else {
            0
        }),
    ] + optional_line("geiger_last_trade_timestamp_ns"@, x, s, h.last_trade_ts_ns) + optional_line(
        "geiger_last_heartbeat_timestamp_ns"@,
        x,
        s,
        h.last_heartbeat_ts_ns,
    )
}

/// All values of all streams.
pub open spec fn all_lines(streams: Seq<(String, StreamEntry)>) -> Seq<Seq<char>>
    decreases streams.len(),
{
    if streams.len() == 0 {
        Seq::empty()
    } else {
        all_lines(streams.drop_last()) + stream_lines(streams.last().1)
    }
}

fn header_of(name: &str, kind: &str, help: &str) -> (r: Vec<String>)
    ensures
        views(r@) == metric_header(name@, kind@, help@),
{
    let mut lines: Vec<String> = Vec::new();
    let help_head: String = "# HELP ".to_owned();
    lines.push(help_head.concat(name).concat(" ").concat(help).concat("."));
    let type_head: String = "# TYPE ".to_owned();
    lines.push(type_head.concat(name).concat(" ").concat(kind));
    assert(views(lines@) =~= metric_header(name@, kind@, help@));
    lines
}

/// Puts some lines behind others.
fn add_lines(lines: &mut Vec<String>, more: Vec<String>)
    ensures
        views(final(lines)@) == views(old(lines)@) + views(more@),
{
    proof {
        lemma_views_append(lines@, more@);
    }
    let mut rest: Vec<String> = more;
    lines.append(&mut rest);
}

/// The declarations of all metrics.
pub fn write_metrics_header() -> (r: Vec<String>)
    ensures
        views(r@) == metrics_header(),
{
    let mut lines: Vec<String> = header_of(
        "geiger_trades_processed_total",
        "counter",
        "Trades processed for this stream since the worker started",
    );
    add_lines(
        &mut lines,
        header_of(
            "geiger_readings_emitted_total",
            "counter",
            "VPIN readings emitted for this stream since the worker started",
        ),
    );
    add_lines(
        &mut lines,
        header_of(
            "geiger_stream_alive",
            "gauge",
            "1 if the stream's worker is still running, 0 if its trade-ingest channel closed",
        ),
    );
    add_lines(
        &mut lines,
        header_of(
            "geiger_last_trade_timestamp_ns",
            "gauge",
            "Exchange timestamp (ns) of the last trade processed for this stream",
        ),
    );
    add_lines(
        &mut lines,
        header_of(
            "geiger_last_heartbeat_timestamp_ns",
            "gauge",
            "Timestamp (ns) of the last heartbeat sent for this stream",
        ),
    );
    lines
}

fn value_line(name: &str, exchange: &str, symbol: &str, value: u64) -> (r: String)
    ensures
        r@ == metric_line(name@, exchange@, symbol@, value as nat),
{
    let labelled: String = name.to_owned().concat("{exchange=\"").concat(exchange).concat(
        "\",symbol=\"",
    ).concat(symbol);
    labelled.concat("\"} ").concat(decimal_text(value).as_str())
}

fn optional_lines(name: &str, exchange: &str, symbol: &str, value: Option<u64>) -> (r: Vec<String>)
    ensures
        views(r@) == optional_line(name@, exchange@, symbol@, value),
{
    let mut lines: Vec<String> = Vec::new();
    if let Some(n) = value {
        lines.push(value_line(name, exchange, symbol, n));
    }
    assert(views(lines@) =~= optional_line(name@, exchange@, symbol@, value));
    lines
}

fn lines_of(e: &StreamEntry) -> (r: Vec<String>)
    ensures
        views(r@) == stream_lines(*e),
{
    let x: &str = e.exchange.as_str();
    let s: &str = e.symbol.as_str();
    let alive: u64 = if e.health.worker_alive {
        1
    } else {
        0
    };
    let mut lines: Vec<String> = Vec::new();
    lines.push(value_line("geiger_trades_processed_total", x, s, e.health.trades_processed));
    lines.push(value_line("geiger_readings_emitted_total", x, s, e.health.readings_emitted));
    lines.push(value_line("geiger_stream_alive", x, s, alive));
    assert(views(lines@) =~= stream_lines(*e).take(3));
    let trade: Vec<String> = optional_lines(
        "geiger_last_trade_timestamp_ns",
        x,
        s,
        e.health.last_trade_ts_ns,
    );
    let heartbeat: Vec<String> = optional_lines(
        "geiger_last_heartbeat_timestamp_ns",
        x,
        s,
        e.health.last_heartbeat_ts_ns,
    );
    add_lines(&mut lines, trade);
    add_lines(&mut lines, heartbeat);
    assert(views(lines@) =~= stream_lines(*e));
    lines
}

/// All metrics of all streams.
pub fn render_metrics(streams: &Vec<(String, StreamEntry)>) -> (r: String)
    ensures
        r@ == ended(metrics_header() + all_lines(streams@)),
{
    let mut lines: Vec<String> = write_metrics_header();
    let mut i: usize = 0;
    assert(streams@.take(0) =~= Seq::empty());
    assert(views(lines@) =~= metrics_header() + all_lines(streams@.take(0)));
    while i < streams.len()
        invariant
            i <= streams@.len(),
            views(lines@) == metrics_header() + all_lines(streams@.take(i as int)),
        decreases streams.len() - i,
    {
        assert(streams@.take(i + 1).drop_last() =~= streams@.take(i as int));
        add_lines(&mut lines, lines_of(&streams[i].1));
        i += 1;
        assert(views(lines@) =~= metrics_header() + all_lines(streams@.take(i as int)));
    }
    assert(streams@.take(i as int) =~= streams@);
    end_lines(&lines)
}

/// A response: status line, content type, the body's length in bytes, and the
/// body.
pub open spec fn response_text(
    status: Seq<char>,
    content_type: Seq<char>,
    body: Seq<char>,
) -> Seq<char> {
    "HTTP/1.1 "@ + status + "\r\nContent-Type: "@ + content_type + "\r\nContent-Length: "@
        + decimal(encode_utf8(body).len()) + "\r\n\r\n"@ + body
}

/// What a path is answered.
pub open spec fn answer_to(path: Seq<char>, streams: Seq<(String, StreamEntry)>) -> Seq<char> {
    match route_to(path) {
        Route::Health => response_text(
            "200 OK"@,
            "application/json"@,
            json_text(health_tree(streams)),
        ),
        Route::Metrics => response_text(
            "200 OK"@,
            "text/plain; version=0.0.4"@,
            ended(metrics_header() + all_lines(streams)),
        ),
        Route::NotFound => response_text("404 Not Found"@, "text/plain"@, "not found"@),
    }
}

fn response(status: &str, content_type: &str, body: &str) -> (r: String)
    ensures
        r@ == response_text(status@, content_type@, body@),
{
    let head: String = "HTTP/1.1 ".to_owned();
    let typed: String = head.concat(status).concat("\r\nContent-Type: ").concat(content_type);
    let length: String = decimal_text(body.as_bytes().len() as u64);
    typed.concat("\r\nContent-Length: ").concat(length.as_str()).concat("\r\n\r\n").concat(body)
}

/// Answers a request for a path.
pub fn respond(path: &str, streams: &Vec<(String, StreamEntry)>) -> (r: String)
    ensures
        r@ == answer_to(path@, streams@),
{
    match route(path) {
        Route::Health => response(
            "200 OK",
            "application/json",
            render_health(streams).as_str(),
        ),
        Route::Metrics => response(
            "200 OK",
            "text/plain; version=0.0.4",
            render_metrics(streams).as_str(),
        ),
        Route::NotFound => response("404 Not Found", "text/plain", "not found"),
    }
}

/// Answers what was read from a connection: nothing at all gets no answer.
pub fn handle_request(request: &Vec<u8>, streams: &Vec<(String, StreamEntry)>) -> (r: Option<String>)
    ensures
        match r {
            None => request@.len() == 0,
            Some(text) => request@.len() > 0 && text@ == answer_to(
                path_in(utf8_lossy(request@)),
                streams@,
            ),
        },
{
    if request.len() == 0 {
        None
    } else {
        Some(respond(request_path(request).as_str(), streams))
    }
}

/// What the health endpoint shows of a stream, under the name of each.
proof fn lemma_stream_members(e: StreamEntry)
    ensures
        ({
            let m = members(stream_entries(e));
            let count = |n: Option<u64>|
                match n {
                    Some(x) => JsonTree::Count(x as nat),
                    None => JsonTree::Null,
                };
            &&& m.contains_key("exchange"@) && m["exchange"@] == JsonTree::Text(e.exchange@)
            &&& m.contains_key("symbol"@) && m["symbol"@] == JsonTree::Text(e.symbol@)
            &&& m.contains_key("alive"@) && m["alive"@] == JsonTree::Bool(e.health.worker_alive)
            &&& m.contains_key("trades_processed"@)
            &&& m["trades_processed"@] == JsonTree::Count(e.health.trades_processed as nat)
            &&& m.contains_key("readings_emitted"@)
            &&& m["readings_emitted"@] == JsonTree::Count(e.health.readings_emitted as nat)
            &&& m.contains_key("last_trade_ts_ns"@)
            &&& m["last_trade_ts_ns"@] == count(e.health.last_trade_ts_ns)
            &&& m.contains_key("last_heartbeat_ts_ns"@)
            &&& m["last_heartbeat_ts_ns"@] == count(e.health.last_heartbeat_ts_ns)
        }),
{
    let entries = stream_entries(e);
    reveal_strlit("exchange");
    reveal_strlit("symbol");
    reveal_strlit("alive");
    reveal_strlit("trades_processed");
    reveal_strlit("readings_emitted");
    reveal_strlit("last_trade_ts_ns");
    reveal_strlit("last_heartbeat_ts_ns");
    assert(entries[0].0.len() == 8 && entries[1].0.len() == 6 && entries[2].0.len() == 5);
    assert(entries[3].0.len() == 16 && entries[3].0[0] == 't');
    assert(entries[4].0.len() == 16 && entries[4].0[0] == 'r');
    assert(entries[5].0.len() == 16 && entries[5].0[0] == 'l');
    assert(entries[6].0.len() == 20);
    lemma_own_members(entries);
}

/// The health endpoint says that all is well and how many streams there are, and
/// shows each stream under its key: its venue and symbol, whether its worker
/// runs, what it has processed and emitted, and the times of its last trade and
/// its last heartbeat, null before there is one.
pub proof fn law_health_shows_every_stream(streams: Seq<(String, StreamEntry)>, i: int)
    requires
        0 <= i < streams.len(),
        forall|j: int, k: int|
            0 <= j < k < streams.len() ==> (#[trigger] streams[j]).0@ != (#[trigger] streams[k]).0@,
    ensures
        ({
            let top = health_tree(streams)->Object_0;
            let shown = top["streams"@]->Object_0;
            let m = shown[streams[i].0@]->Object_0;
            let e = streams[i].1;
            let count = |n: Option<u64>|
                match n {
                    Some(x) => JsonTree::Count(x as nat),
                    None => JsonTree::Null,
                };
            &&& health_tree(streams) is Object
            &&& top.contains_key("status"@) && top["status"@] == JsonTree::Text("ok"@)
            &&& top.contains_key("stream_count"@)
            &&& top["stream_count"@] == JsonTree::Count(streams.len())
            &&& top.contains_key("streams"@) && top["streams"@] is Object
            &&& shown.contains_key(streams[i].0@) && shown[streams[i].0@] is Object
            &&& m.contains_key("exchange"@) && m["exchange"@] == JsonTree::Text(e.exchange@)
            &&& m.contains_key("symbol"@) && m["symbol"@] == JsonTree::Text(e.symbol@)
            &&& m.contains_key("alive"@) && m["alive"@] == JsonTree::Bool(e.health.worker_alive)
            &&& m.contains_key("trades_processed"@)
            &&& m["trades_processed"@] == JsonTree::Count(e.health.trades_processed as nat)
            &&& m.contains_key("readings_emitted"@)
            &&& m["readings_emitted"@] == JsonTree::Count(e.health.readings_emitted as nat)
            &&& m.contains_key("last_trade_ts_ns"@)
            &&& m["last_trade_ts_ns"@] == count(e.health.last_trade_ts_ns)
            &&& m.contains_key("last_heartbeat_ts_ns"@)
            &&& m["last_heartbeat_ts_ns"@] == count(e.health.last_heartbeat_ts_ns)
        }),
{
    let shown = streams_entries(streams);
    assert forall|j: int, k: int| 0 <= j < k < shown.len() implies (#[trigger] shown[j]).0
        != (#[trigger] shown[k]).0 by {
        assert(streams[j].0@ != streams[k].0@);
    }
    lemma_own_members(shown);
    assert(shown[i].0 == streams[i].0@);
    lemma_stream_members(streams[i].1);
    let top = seq![
        ("status"@, JsonTree::Text("ok"@)),
        ("stream_count"@, JsonTree::Count(streams.len())),
        ("streams"@, JsonTree::Object(members(shown))),
    ];
    reveal_strlit("status");
    reveal_strlit("stream_count");
    reveal_strlit("streams");
    assert(top[0].0.len() == 6 && top[1].0.len() == 12 && top[2].0.len() == 7);
    lemma_own_members(top);
}

/// The metrics of a stream are one line each, under the metric's name, with the
/// stream's venue and symbol and then the number: what it has processed and
/// emitted, 1 or 0 for whether its worker runs, and the times of its last trade
/// and its last heartbeat, which have no line before there is one.
pub proof fn law_metrics_show_every_counter(e: StreamEntry)
    ensures
        ({
            let labels = "{exchange=\""@ + e.exchange@ + "\",symbol=\""@ + e.symbol@ + "\"} "@;
            let lines = stream_lines(e);
            let more: int = if e.health.last_trade_ts_ns is Some {
                1
            } else {
                0
            };
            &&& lines[0] == "geiger_trades_processed_total"@ + labels + decimal(
                e.health.trades_processed as nat,
            )
            &&& lines[1] == "geiger_readings_emitted_total"@ + labels + decimal(
                e.health.readings_emitted as nat,
            )
            &&& lines[2] == "geiger_stream_alive"@ + labels + decimal(
                if e.health.worker_alive {
                    1
                } else {
                    0
                },
            )
            &&& e.health.last_trade_ts_ns matches Some(n) ==> lines[3]
                == "geiger_last_trade_timestamp_ns"@ + labels + decimal(n as nat)
            &&& e.health.last_heartbeat_ts_ns matches Some(n) ==> lines[3 + more]
                == "geiger_last_heartbeat_timestamp_ns"@ + labels + decimal(n as nat)
            &&& lines.len() == 3 + more + (if e.health.last_heartbeat_ts_ns is Some {
                1int
            } else {
                0
            })
        }),
{
    let (x, s) = (e.exchange@, e.symbol@);
    let labels = "{exchange=\""@ + x + "\",symbol=\""@ + s + "\"} "@;
    assert forall|name: Seq<char>, n: nat| #[trigger]
        metric_line(name, x, s, n) == name + labels + decimal(n) by {
        assert(metric_line(name, x, s, n) =~= name + labels + decimal(n));
    }
}

} // verus!
