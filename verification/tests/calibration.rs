use geiger::args::{parse_args, parse_capture_args, CaptureArgs, OutputFormat, SweepArgs};
use geiger::calibrate::{
    bvc_accuracy_stats, calibrate_one, has_room_throughout, mean_interval_ms, replay, summarize,
    two_proportion_p_value, BvcStats, Stats, Trade,
};
use geiger::double::{Double, Op};
use geiger::error::VpinError;
use geiger::numeral::Digits;
use geiger::report::{
    csv_escape, csv_header, csv_report, csv_row, format_p_value, json_report, stats_to_json,
    table_report,
};
use geiger::sweep::{run_sweep, SweepResult};
use geiger::trade::{Exchange, NormalizedTrade, Price, Qty, Symbol, TakerSide};

fn d(x: f64) -> Double {
    Double { bits: x.to_bits() }
}

fn f(x: Double) -> f64 {
    f64::from_bits(x.bits)
}

fn unit(op: Op) -> Double {
    d(match op {
        Op::Add(x, y) => f(x) + f(y),
        Op::Sub(x, y) => f(x) - f(y),
        Op::Mul(x, y) => f(x) * f(y),
        Op::Div(x, y) => f(x) / f(y),
        Op::Sqrt(x) => f(x).sqrt(),
        Op::Erf(x) => libm::erf(f(x)),
        Op::Of(n) => n as f64,
    })
}

fn show(x: Double, digits: Digits) -> String {
    match digits {
        Digits::Shortest => format!("{}", f(x)),
        Digits::Fixed(n) => format!("{:.*}", n as usize, f(x)),
    }
}

fn read(s: String) -> Result<Double, String> {
    s.parse::<f64>().map(d).map_err(|e| e.to_string())
}

fn number(x: Double) -> serde_json::Value {
    serde_json::Value::from(f(x))
}

fn strings(raw: &[&str]) -> Vec<String> {
    raw.iter().map(|s| s.to_string()).collect()
}

fn sweep_args(raw: &[&str]) -> Result<SweepArgs, String> {
    parse_args(&read, &strings(raw))
}

fn error_of(raw: &[&str]) -> String {
    match sweep_args(raw) {
        Ok(_) => panic!("accepted"),
        Err(e) => e,
    }
}

// Arguments of the sweep

#[test]
fn parses_valid_args() {
    let args = sweep_args(&[
        "trades.cap",
        "--bucket-volumes",
        "10,25,50",
        "--sigma-windows",
        "20,50",
        "--vpin-windows",
        "30,60",
        "--cdf-window",
        "100",
        "--format",
        "csv",
    ])
    .unwrap();
    assert_eq!(args.file, "trades.cap");
    assert_eq!(args.bucket_volumes, vec![d(10.0), d(25.0), d(50.0)]);
    assert_eq!(args.sigma_windows, vec![20, 50]);
    assert_eq!(args.vpin_windows, vec![30, 60]);
    assert_eq!(args.cdf_window, Some(100));
    assert_eq!(args.format, OutputFormat::Csv);
}

#[test]
fn cdf_window_and_format_are_optional_with_sane_defaults() {
    let args = sweep_args(&[
        "trades.cap",
        "--bucket-volumes",
        "10",
        "--sigma-windows",
        "20",
        "--vpin-windows",
        "20",
    ])
    .unwrap();
    assert_eq!(args.cdf_window, None);
    assert_eq!(args.format, OutputFormat::Table);
}

#[test]
fn missing_required_flag_is_an_error() {
    let e = error_of(&["trades.cap", "--sigma-windows", "20", "--vpin-windows", "20"]);
    assert!(e.starts_with("missing --bucket-volumes\nusage: calibrate <capture-file>"));
}

#[test]
fn missing_vpin_windows_is_an_error() {
    let e = error_of(&["trades.cap", "--bucket-volumes", "10", "--sigma-windows", "20"]);
    assert!(e.starts_with("missing --vpin-windows\n"));
}

#[test]
fn unknown_flag_is_an_error() {
    let e = error_of(&["trades.cap", "--bogus", "1"]);
    assert!(e.starts_with("unknown flag: --bogus\nusage: "));
}

#[test]
fn unknown_format_is_an_error() {
    let e = error_of(&[
        "trades.cap",
        "--bucket-volumes",
        "10",
        "--sigma-windows",
        "20",
        "--vpin-windows",
        "20",
        "--format",
        "XML",
    ]);
    assert_eq!(e, "unknown --format \"xml\", expected table, csv, or json");
}

#[test]
fn malformed_number_in_csv_is_an_error() {
    let e = error_of(&[
        "trades.cap",
        "--bucket-volumes",
        "10,abc,50",
        "--sigma-windows",
        "20",
        "--vpin-windows",
        "20",
    ]);
    assert_eq!(e, "bad value \"abc\" for --bucket-volumes: invalid float literal");
}

#[test]
fn every_other_complaint_about_arguments_is_spelled_out() {
    assert!(error_of(&[]).starts_with("usage: calibrate"));
    assert_eq!(error_of(&["f", "--format"]), "missing value for --format");
    assert!(error_of(&["f", "--bucket-volumes", "1"]).starts_with("missing --sigma-windows\n"));
    assert_eq!(
        error_of(&["f", "--sigma-windows", "3, +4 ,-5,x"]),
        "bad value \"-5\" for --sigma-windows: invalid digit found in string"
    );
    assert_eq!(
        error_of(&["f", "--vpin-windows", ""]),
        "bad value \"\" for --vpin-windows: cannot parse integer from empty string"
    );
    assert_eq!(
        error_of(&["f", "--cdf-window", "a\"b"]),
        "bad --cdf-window \"a\\\"b\": invalid digit found in string"
    );
    assert_eq!(
        error_of(&["f", "--cdf-window", "99999999999999999999999"]),
        "bad --cdf-window \"99999999999999999999999\": number too large to fit in target type"
    );
}

// Arguments of the capture

fn capture_args(raw: &[&str]) -> Result<CaptureArgs, String> {
    parse_capture_args(&strings(raw))
}

#[test]
fn parses_valid_args_with_default_flush_every() {
    let args = capture_args(&["binance", "BTCUSDT", "out.cap"]).unwrap();
    assert_eq!(args.exchange, Exchange::Binance);
    assert_eq!(args.symbol, "BTCUSDT");
    assert_eq!(args.output, "out.cap");
    assert_eq!(args.flush_every, 100);
}

#[test]
fn parses_flush_every_override() {
    let args = capture_args(&["bybit", "ETHUSDT", "out.cap", "--flush-every", "10"]).unwrap();
    assert_eq!(args.exchange, Exchange::Bybit);
    assert_eq!(args.flush_every, 10);
}

#[test]
fn exchange_names_are_case_insensitive() {
    let args = capture_args(&["HyperLiquid", "BTC", "out.cap"]).unwrap();
    assert_eq!(args.exchange, Exchange::Hyperliquid);
}

#[test]
fn main_rejects_unknown_exchange() {
    let e = capture_args(&["okx", "BTCUSDT", "out.cap"]).err().unwrap();
    assert!(e.starts_with("unknown exchange: \"okx\"\nusage: capture <binance"));
}

#[test]
fn rejects_missing_required_args() {
    assert!(capture_args(&[]).is_err());
    assert!(capture_args(&["binance"]).is_err());
    assert!(capture_args(&["binance", "BTCUSDT"]).err().unwrap().starts_with("usage: capture"));
}

#[test]
fn rejects_unknown_flag() {
    let e = capture_args(&["binance", "BTCUSDT", "out.cap", "--bogus", "1"]).err().unwrap();
    assert!(e.starts_with("unknown flag: --bogus\nusage: capture"));
}

#[test]
fn rejects_flag_missing_its_value() {
    let e = capture_args(&["binance", "BTCUSDT", "out.cap", "--flush-every"]).err().unwrap();
    assert_eq!(e, "missing value for --flush-every");
    let e = capture_args(&["binance", "BTCUSDT", "o", "--flush-every", "many"]).err().unwrap();
    assert_eq!(e, "bad --flush-every \"many\": invalid digit found in string");
}

// Statistics

fn doubles(xs: &[f64]) -> Vec<Double> {
    xs.iter().map(|x| d(*x)).collect()
}

#[test]
fn summarize_empty_is_all_nan() {
    let (mean, min, max, std) = summarize(&unit, &vec![]);
    assert!(mean.is_nan() && min.is_nan() && max.is_nan() && std.is_nan());
}

#[test]
fn summarize_matches_known_values() {
    let (mean, min, max, std) =
        summarize(&unit, &doubles(&[2.0, 4.0, 4.0, 4.0, 5.0, 5.0, 7.0, 9.0]));
    assert!((f(mean) - 5.0).abs() < 1e-9);
    assert_eq!(f(min), 2.0);
    assert_eq!(f(max), 9.0);
    assert!((f(std) - 2.138_089_935_299_395).abs() < 1e-9);
    let (mean, min, max, std) = summarize(&unit, &doubles(&[3.0]));
    assert_eq!((f(mean), f(min), f(max), f(std)), (3.0, 3.0, 3.0, 0.0));
}

#[test]
fn mean_interval_computes_average_gap() {
    let interval = mean_interval_ms(&unit, &vec![0, 1_000_000, 3_000_000, 6_000_000]);
    assert!((f(interval) - 2.0).abs() < 1e-9);
    assert_eq!(f(mean_interval_ms(&unit, &vec![5, 3])), 0.0);
}

#[test]
fn mean_interval_needs_at_least_two_points() {
    assert!(mean_interval_ms(&unit, &vec![]).is_nan());
    assert!(mean_interval_ms(&unit, &vec![42]).is_nan());
}

fn no_bvc() -> BvcStats {
    BvcStats { accuracy: d(f64::NAN), mean_abs_error: d(f64::NAN), compared: 0 }
}

#[test]
fn calibrate_one_reports_invalid_config_as_error_not_panic() {
    let trades = vec![Trade {
        price: d(100.0),
        volume: d(1.0),
        ts_ns: 0,
        taker_side: TakerSide::Buy,
    }];
    let result = calibrate_one(&unit, &trades, d(-5.0), 10, 10, None, no_bvc());
    assert!(matches!(result, Err(VpinError::InvalidBucketVolume(_))));
}

fn synthetic_zigzag_trades(n: u64) -> Vec<Trade> {
    let mut trades = Vec::new();
    let mut price = 100.0;
    for i in 0..n {
        price += if i % 2 == 0 { 0.4 } else { -0.25 };
        let taker_side = if i % 2 == 0 { TakerSide::Buy } else { TakerSide::Sell };
        trades.push(Trade { price: d(price), volume: d(10.0), ts_ns: i * 1_000_000, taker_side });
    }
    trades
}

#[test]
fn calibrate_one_runs_end_to_end_on_synthetic_trades() {
    let trades = synthetic_zigzag_trades(500);
    assert!(has_room_throughout(&unit, d(10.0), &trades));
    let bvc = bvc_accuracy_stats(&unit, &trades, d(10.0), 10).unwrap();
    let stats = calibrate_one(&unit, &trades, d(10.0), 10, 10, Some(20), bvc).unwrap();
    assert!(stats.total_buckets > 0);
    assert!(stats.non_warmup_readings > 0);
    assert!(f(stats.vpin_mean) >= 0.0 && f(stats.vpin_mean) <= 1.0);
    assert!(!stats.avg_bucket_interval_ms.is_nan());
    assert!(!stats.bvc_accuracy.is_nan(), "expected BVC accuracy once sigma warms up");
    assert!((0.0..=1.0).contains(&f(stats.bvc_accuracy)));
    assert!(f(stats.bvc_mean_abs_error) >= 0.0);
    assert_eq!(stats.total_buckets, 500);
    assert_eq!(f(stats.avg_bucket_interval_ms), 1.0);
}

#[test]
fn bvc_accuracy_is_nan_before_sigma_warms_up() {
    let trades: Vec<Trade> = (0..5u64)
        .map(|i| Trade {
            price: d(100.0 + i as f64),
            volume: d(10.0),
            ts_ns: i,
            taker_side: TakerSide::Buy,
        })
        .collect();
    let bvc = bvc_accuracy_stats(&unit, &trades, d(10.0), 1000).unwrap();
    assert!(bvc.accuracy.is_nan());
    assert!(bvc.mean_abs_error.is_nan());
    assert_eq!(bvc.compared, 0);
}

#[test]
fn bvc_accuracy_is_perfect_when_every_trade_pushes_price_with_its_own_side() {
    let mut trades = Vec::new();
    let mut price = 1000.0;
    let mut state: u64 = 42;
    for i in 0..300u64 {
        state = state.wrapping_mul(6364136223846793005).wrapping_add(1);
        let is_buy = (state >> 63) == 1;
        price += if is_buy { 1.0 } else { -1.0 };
        trades.push(Trade {
            price: d(price),
            volume: d(10.0),
            ts_ns: i,
            taker_side: if is_buy { TakerSide::Buy } else { TakerSide::Sell },
        });
    }
    let bvc = bvc_accuracy_stats(&unit, &trades, d(10.0), 20).unwrap();
    assert!(!bvc.accuracy.is_nan());
    assert!(f(bvc.accuracy) > 0.95, "got {}", f(bvc.accuracy));
}

fn p_value(p1: f64, n1: u64, p2: f64, n2: u64) -> f64 {
    f(two_proportion_p_value(&unit, d(p1), n1, d(p2), n2))
}

#[test]
fn two_proportion_p_value_is_one_for_identical_large_samples() {
    assert!((p_value(0.8, 200, 0.8, 200) - 1.0).abs() < 1e-9);
    assert_eq!(p_value(1.0, 200, 1.0, 200), 1.0);
}

#[test]
fn two_proportion_p_value_is_small_for_a_clear_difference() {
    let p = p_value(0.95, 200, 0.60, 200);
    assert!(p < 0.001, "expected a tiny p-value, got {p}");
}

#[test]
fn two_proportion_p_value_without_any_variance_tells_a_gap_from_none() {
    assert_eq!(p_value(1.0, 200, 0.0, 200), 0.0);
    assert_eq!(p_value(0.0, 30, 1.0, 5000), 0.0);
    assert_eq!(p_value(1.0, 200, 1.0, 300), 1.0);
    assert_eq!(p_value(0.0, 200, -0.0, 300), 1.0);
}

#[test]
fn two_proportion_p_value_is_nan_below_min_compared() {
    assert!(p_value(0.9, 10, 0.5, 200).is_nan());
    assert!(p_value(0.9, 200, 0.5, 10).is_nan());
}

#[test]
fn two_proportion_p_value_is_nan_for_nan_inputs() {
    assert!(p_value(f64::NAN, 200, 0.5, 200).is_nan());
}

fn sweep(trades: &Vec<Trade>, bv: &[f64], sw: &[usize], vw: &[usize]) -> Vec<SweepResult> {
    run_sweep(&unit, trades, &doubles(bv), &sw.to_vec(), &vw.to_vec(), None)
}

#[test]
fn run_sweep_covers_the_full_cartesian_product() {
    let trades = synthetic_zigzag_trades(500);
    let results = sweep(&trades, &[10.0, 20.0], &[10, 20], &[10, 15]);
    assert_eq!(results.len(), 2 * 2 * 2);
    let points: Vec<(f64, usize, usize)> =
        results.iter().map(|r| (f(r.bucket_volume), r.sigma_window, r.vpin_window)).collect();
    assert_eq!(points[1], (10.0, 10, 15));
    assert_eq!(points[2], (10.0, 20, 10));
    assert_eq!(points[4], (20.0, 10, 10));
}

#[test]
fn run_sweep_reuses_bvc_stats_across_vpin_windows() {
    let trades = synthetic_zigzag_trades(500);
    let results = sweep(&trades, &[10.0], &[10], &[5, 10, 20, 50]);
    let accuracies: Vec<f64> =
        results.iter().map(|r| f(r.stats.as_ref().unwrap().bvc_accuracy)).collect();
    assert!(
        accuracies.windows(2).all(|w| w[0] == w[1]),
        "expected identical bvc_accuracy across vpin_windows, got {accuracies:?}"
    );
}

#[test]
fn run_sweep_gives_the_best_config_a_nan_p_value_and_others_a_real_one() {
    let trades = synthetic_zigzag_trades(500);
    let results = sweep(&trades, &[10.0, 20.0, 30.0], &[10, 15], &[10]);
    let best_idx = results
        .iter()
        .enumerate()
        .filter_map(|(i, r)| r.stats.as_ref().ok().map(|s| (i, f(s.bvc_accuracy))))
        .max_by(|a, b| a.1.total_cmp(&b.1))
        .map(|(i, _)| i)
        .unwrap();
    assert!(results[best_idx].stats.as_ref().unwrap().bvc_accuracy_p_value.is_nan());
    let any_other_has_a_real_p_value = results
        .iter()
        .enumerate()
        .filter(|(i, _)| *i != best_idx)
        .filter_map(|(_, r)| r.stats.as_ref().ok())
        .any(|s| !s.bvc_accuracy_p_value.is_nan());
    assert!(any_other_has_a_real_p_value);
}

#[test]
fn captured_units_become_numbers() {
    let tape = vec![NormalizedTrade {
        price: Price::new(1_657_850_000_000),
        qty: Qty::new(100_000),
        ts_exchange_ns: 9,
        ts_recv_ns: 10,
        symbol: Symbol::from_bytes(b"BTCUSDT"),
        exchange: Exchange::Bybit,
        taker_side: TakerSide::Sell,
        sequence: 0,
    }];
    let trades = replay(&unit, &tape);
    assert_eq!(
        trades,
        vec![Trade { price: d(16578.5), volume: d(0.001), ts_ns: 9, taker_side: TakerSide::Sell }]
    );
}

// Reports

#[test]
fn csv_escape_only_quotes_when_needed() {
    assert_eq!(csv_escape("plain"), "plain");
    assert_eq!(csv_escape("has,comma"), "\"has,comma\"");
    assert_eq!(csv_escape("has\"quote"), "\"has\"\"quote\"");
    assert_eq!(csv_escape("two\nlines"), "\"two\nlines\"");
}

#[test]
fn csv_rows_have_the_same_field_count_as_the_header() {
    let trades = synthetic_zigzag_trades(200);
    let results = sweep(&trades, &[10.0, -5.0], &[10], &[10]);
    let header_fields = csv_header().split(',').count();
    for r in &results {
        let row = csv_row(&show, r);
        assert_eq!(row.len(), header_fields, "row {row:?}");
    }
    assert_eq!(
        csv_header(),
        "bucket_volume,sigma_window,vpin_window,total_buckets,non_warmup_readings,vpin_mean,vpin_min,vpin_max,vpin_stddev,avg_bucket_interval_ms,bvc_accuracy,bvc_mean_abs_error,bvc_compared,bvc_accuracy_p_value,error"
    );
}

#[test]
fn json_output_is_valid_and_has_the_expected_shape() {
    let trades = synthetic_zigzag_trades(200);
    let results = sweep(&trades, &[10.0, -5.0], &[10], &[10]);
    let rows: Vec<serde_json::Value> =
        results.iter().map(|r| stats_to_json(&show, &number, r)).collect();
    let text = serde_json::to_string(&rows).unwrap();
    let parsed: serde_json::Value = serde_json::from_str(&text).unwrap();
    let arr = parsed.as_array().unwrap();
    assert_eq!(arr.len(), 2);
    assert!(arr[0].get("bvc_accuracy").is_some());
    assert!(arr[1].get("error").is_some());
    assert!(arr[1].get("bvc_accuracy").is_none());
    assert_eq!(arr[0]["bucket_volume"], 10.0);
    assert_eq!(arr[0]["total_buckets"], 200);
    assert!(arr[0]["error"].is_null());
    assert!(arr[0]["bvc_accuracy_p_value"].is_null());
    assert_eq!(arr[1]["error"], "bucket target volume must be finite and positive, got -5");
    let pretty = json_report(&show, &number, &results).unwrap();
    assert!(pretty.starts_with("[\n  {\n    \"avg_bucket_interval_ms\": 1.0,\n"));
    assert_eq!(serde_json::from_str::<serde_json::Value>(&pretty).unwrap(), parsed);
}

fn a_point() -> SweepResult {
    let stats = Stats {
        bucket_volume: d(10.0),
        sigma_window: 20,
        vpin_window: 30,
        total_buckets: 400,
        non_warmup_readings: 380,
        vpin_mean: d(0.25),
        vpin_min: d(0.0),
        vpin_max: d(1.0),
        vpin_stddev: d(0.125),
        avg_bucket_interval_ms: d(12.25),
        bvc_accuracy: d(0.75),
        bvc_mean_abs_error: d(f64::NAN),
        bvc_compared: 380,
        bvc_accuracy_p_value: d(0.5),
    };
    SweepResult { bucket_volume: d(10.0), sigma_window: 20, vpin_window: 30, stats: Ok(stats) }
}

fn a_refused_point() -> SweepResult {
    SweepResult {
        bucket_volume: d(1.5),
        sigma_window: 0,
        vpin_window: 3,
        stats: Err(VpinError::InvalidWindow { got: 0, min: 2 }),
    }
}

#[test]
fn the_table_lines_its_columns_up() {
    let text = table_report(&show, 7, "a.cap", &vec![a_point(), a_refused_point()]);
    let lines: Vec<&str> = text.lines().collect();
    assert_eq!(lines[0], "loaded 7 trades from a.cap");
    assert_eq!(lines[1], "");
    assert_eq!(
        lines[2],
        " bucket_volume sigma_window vpin_window  total_buckets non_warmup_reads  vpin_mean   vpin_min   vpin_max   vpin_std    avg_interval_ms bvc_accuracy    bvc_mae    bvc_n  bvc_p_value"
    );
    assert_eq!(
        lines[3],
        "       10.0000           20          30            400              380     0.2500     0.0000     1.0000     0.1250               12.2       0.7500        NaN      380       0.5000"
    );
    assert_eq!(
        lines[4],
        "        1.5000            0           3  invalid config: window size must be at least 2, got 0"
    );
    assert_eq!(lines[5], "");
    assert!(lines[6].starts_with("bvc_accuracy: fraction of buckets"));
    assert!(lines[8].ends_with("\"-\" for the best config itself, or under 30 compared buckets on either side."));
    assert_eq!(lines.len(), 9);
    assert!(text.ends_with('\n'));
    assert_eq!(format_p_value(&show, d(f64::NAN)), "-");
}

#[test]
fn csv_leaves_a_refused_point_blank() {
    let text = csv_report(&show, &vec![a_point(), a_refused_point()]);
    let lines: Vec<&str> = text.lines().collect();
    assert_eq!(lines[1], "10,20,30,400,380,0.25,0,1,0.125,12.25,0.75,NaN,380,0.5,");
    assert_eq!(lines[2], "1.5,0,3,,,,,,,,,,,,\"window size must be at least 2, got 0\"");
    assert_eq!(lines.len(), 3);
}
