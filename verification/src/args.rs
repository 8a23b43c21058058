//! The command lines of the two tools: the parameter sweep and the capture.

use crate::config::{named_exchange, parse_exchange};
use crate::double::Double;
use crate::numeral::{
    debug_quoted, is_reader, quoted, read, read_double, read_u64, read_usize, u64_refusal,
    usize_refusal,
};
use crate::text::{lower, pieces, same_text, split, to_lower, trim, trimmed, unsigned, views};
use crate::trade::Exchange;
use vstd::prelude::*;
use vstd::string::*;

verus! {

/// How the sweep reports.
#[derive(Clone, Copy, Debug, PartialEq, Eq, Structural)]
pub enum OutputFormat {
    Table,
    Csv,
    Json,
}

/// The format of a name, its case aside.
pub open spec fn named_format(s: Seq<char>) -> Result<OutputFormat, Seq<char>> {
    if lower(s) == "table"@ {
        Ok(OutputFormat::Table)
    } else if lower(s) == "csv"@ {
        Ok(OutputFormat::Csv)
    } else if lower(s) == "json"@ {
        Ok(OutputFormat::Json)
    } else {
        Err("unknown --format "@ + debug_quoted(lower(s)) + ", expected table, csv, or json"@)
    }
}

/// A result with its error by its characters.
pub open spec fn told<T>(r: Result<T, String>) -> Result<T, Seq<char>> {
    match r {
        Ok(x) => Ok(x),
        Err(e) => Err(e@),
    }
}

impl OutputFormat {
    pub fn from_str(s: &str) -> (r: Result<Self, String>)
        ensures
            told(r) == named_format(s@),
    {
        let name: String = to_lower(s);
        if same_text(name.as_str(), "table") {
            Ok(OutputFormat::Table)
        } else if same_text(name.as_str(), "csv") {
            Ok(OutputFormat::Csv)
        } else if same_text(name.as_str(), "json") {
            Ok(OutputFormat::Json)
        } else {
            let head: String = "unknown --format ".to_owned();
            let text: String = head.concat(quoted(name.as_str()).as_str());
            Err(text.concat(", expected table, csv, or json"))
        }
    }
}

/// How the sweep is called.
pub const SWEEP_USAGE: &'static str = "usage: calibrate <capture-file> --bucket-volumes V1,V2,... --sigma-windows N1,N2,... --vpin-windows N1,N2,... [--cdf-window N] [--format table|csv|json]";

/// How the capture is called.
pub const CAPTURE_USAGE: &'static str = "usage: capture <binance|bybit|hyperliquid> <symbol> <output-file> [--flush-every N]";

/// The complaint about one value of a comma-separated list.
pub open spec fn bad_value(x: Seq<char>, flag: Seq<char>, why: Seq<char>) -> Seq<char> {
    "bad value "@ + debug_quoted(x) + " for "@ + flag + ": "@ + why
}

/// The doubles of a list's pieces, each without the white space around it; or
/// the complaint about the first one that is none.
pub open spec fn doubles<R: Fn(String) -> Result<Double, String>>(
    f: R,
    parts: Seq<Seq<char>>,
    flag: Seq<char>,
) -> Result<Seq<Double>, Seq<char>>
    decreases parts.len(),
{
    if parts.len() == 0 {
        Ok(Seq::empty())
    } else {
        match doubles(f, parts.drop_last(), flag) {
            Err(e) => Err(e),
            Ok(before) => match read(f, trim(parts.last())) {
                Ok(x) => Ok(before.push(x)),
                Err(why) => Err(bad_value(parts.last(), flag, why)),
            },
        }
    }
}

/// What the standard library reads a text as, where a `usize` is wanted.
pub open spec fn usize_read(text: Seq<char>) -> Result<usize, Seq<char>> {
    match unsigned(text) {
        Some(n) if n <= usize::MAX => Ok(n as usize),
        _ => Err(usize_refusal(text)),
    }
}

/// The sizes of a list's pieces, each without the white space around it; or
/// the complaint about the first one that is none.
pub open spec fn sizes(parts: Seq<Seq<char>>, flag: Seq<char>) -> Result<Seq<usize>, Seq<char>>
    decreases parts.len(),
{
    if parts.len() == 0 {
        Ok(Seq::empty())
    } else {
        match sizes(parts.drop_last(), flag) {
            Err(e) => Err(e),
            Ok(before) => match usize_read(trim(parts.last())) {
                Ok(n) => Ok(before.push(n)),
                Err(why) => Err(bad_value(parts.last(), flag, why)),
            },
        }
    }
}

/// A result with its list by its elements and its error by its characters.
pub open spec fn listed<T>(r: Result<Vec<T>, String>) -> Result<Seq<T>, Seq<char>> {
    match r {
        Ok(xs) => Ok(xs@),
        Err(e) => Err(e@),
    }
}

fn bad_value_text(x: &str, flag: &str, why: &str) -> (r: String)
    ensures
        r@ == bad_value(x@, flag@, why@),
{
    let head: String = "bad value ".to_owned();
    head.concat(quoted(x).as_str()).concat(" for ").concat(flag).concat(": ").concat(why)
}

/// A complaint about an early piece is the complaint about the whole list.
proof fn lemma_doubles_stop<R: Fn(String) -> Result<Double, String>>(
    f: R,
    parts: Seq<Seq<char>>,
    flag: Seq<char>,
    i: int,
)
    requires
        0 <= i <= parts.len(),
        doubles(f, parts.take(i), flag) is Err,
    ensures
        doubles(f, parts, flag) == doubles(f, parts.take(i), flag),
    decreases parts.len() - i,
{
    if i < parts.len() {
        assert(parts.take(i + 1).drop_last() =~= parts.take(i));
        lemma_doubles_stop(f, parts, flag, i + 1);
    } else {
        assert(parts.take(i) =~= parts);
    }
}

proof fn lemma_sizes_stop(parts: Seq<Seq<char>>, flag: Seq<char>, i: int)
    requires
        0 <= i <= parts.len(),
        sizes(parts.take(i), flag) is Err,
    ensures
        sizes(parts, flag) == sizes(parts.take(i), flag),
    decreases parts.len() - i,
{
    if i < parts.len() {
        assert(parts.take(i + 1).drop_last() =~= parts.take(i));
        lemma_sizes_stop(parts, flag, i + 1);
    } else {
        assert(parts.take(i) =~= parts);
    }
}

/// A comma-separated list of doubles.
pub fn parse_doubles<R: Fn(String) -> Result<Double, String>>(
    reader: &R,
    s: &str,
    flag: &str,
) -> (r: Result<Vec<Double>, String>)
    requires
        is_reader(*reader),
    ensures
        listed(r) == doubles(*reader, pieces(s@, ','), flag@),
{
    let parts: Vec<String> = split(s, ',');
    let ghost all = pieces(s@, ',');
    let mut out: Vec<Double> = Vec::new();
    let mut i: usize = 0;
    assert(all.take(0) =~= Seq::empty());
    while i < parts.len()
        invariant
            i <= parts@.len(),
            is_reader(*reader),
            views(parts@) == all,
            all == pieces(s@, ','),
            doubles(*reader, all.take(i as int), flag@) == Ok::<Seq<Double>, Seq<char>>(out@),
        decreases parts.len() - i,
    {
        proof {
            assert(all.len() == parts@.len());
            assert(all.take(i + 1).drop_last() =~= all.take(i as int));
            assert(all[i as int] == parts@[i as int]@);
        }
        match read_double(reader, trimmed(parts[i].as_str())) {
            Ok(x) => {
                out.push(x);
            },
            Err(why) => {
                proof {
                    lemma_doubles_stop(*reader, all, flag@, i + 1);
                }
                return Err(bad_value_text(parts[i].as_str(), flag, why.as_str()));
            },
        }
        i += 1;
    }
    assert(all.len() == parts@.len());
    assert(all.take(i as int) =~= all);
    Ok(out)
}

/// A comma-separated list of sizes.
pub fn parse_sizes(s: &str, flag: &str) -> (r: Result<Vec<usize>, String>)
    ensures
        listed(r) == sizes(pieces(s@, ','), flag@),
{
    let parts: Vec<String> = split(s, ',');
    let ghost all = pieces(s@, ',');
    let mut out: Vec<usize> = Vec::new();
    let mut i: usize = 0;
    assert(all.take(0) =~= Seq::empty());
    while i < parts.len()
        invariant
            i <= parts@.len(),
            views(parts@) == all,
            all == pieces(s@, ','),
            sizes(all.take(i as int), flag@) == Ok::<Seq<usize>, Seq<char>>(out@),
        decreases parts.len() - i,
    {
        proof {
            assert(all.len() == parts@.len());
            assert(all.take(i + 1).drop_last() =~= all.take(i as int));
            assert(all[i as int] == parts@[i as int]@);
        }
        match read_usize(trimmed(parts[i].as_str()).as_str()) {
            Ok(n) => {
                out.push(n);
            },
            Err(why) => {
                proof {
                    lemma_sizes_stop(all, flag@, i + 1);
                }
                return Err(bad_value_text(parts[i].as_str(), flag, why.as_str()));
            },
        }
        i += 1;
    }
    assert(all.len() == parts@.len());
    assert(all.take(i as int) =~= all);
    Ok(out)
}

/// The sweep's options as they stand after some flags.
pub struct SweepOptions {
    pub bucket_volumes: Option<Seq<Double>>,
    pub sigma_windows: Option<Seq<usize>>,
    pub vpin_windows: Option<Seq<usize>>,
    pub cdf_window: Option<usize>,
    pub format: OutputFormat,
}

pub open spec fn no_options() -> SweepOptions {
    SweepOptions {
        bucket_volumes: None,
        sigma_windows: None,
        vpin_windows: None,
        cdf_window: None,
        format: OutputFormat::Table,
    }
}

/// The options with one more flag set; the last value of a flag counts.
pub open spec fn with_flag<R: Fn(String) -> Result<Double, String>>(
    f: R,
    o: SweepOptions,
    flag: Seq<char>,
    value: Seq<char>,
) -> Result<SweepOptions, Seq<char>> {
    if flag == "--bucket-volumes"@ {
        match doubles(f, pieces(value, ','), flag) {
            Ok(xs) => Ok(SweepOptions { bucket_volumes: Some(xs), ..o }),
            Err(e) => Err(e),
        }
    } else if flag == "--sigma-windows"@ {
        match sizes(pieces(value, ','), flag) {
            Ok(ns) => Ok(SweepOptions { sigma_windows: Some(ns), ..o }),
            Err(e) => Err(e),
        }
    } else if flag == "--vpin-windows"@ {
        match sizes(pieces(value, ','), flag) {
            Ok(ns) => Ok(SweepOptions { vpin_windows: Some(ns), ..o }),
            Err(e) => Err(e),
        }
    } else if flag == "--cdf-window"@ {
        match usize_read(value) {
            Ok(n) => Ok(SweepOptions { cdf_window: Some(n), ..o }),
            Err(why) => Err("bad --cdf-window "@ + debug_quoted(value) + ": "@ + why),
        }
    } else if flag == "--format"@ {
        match named_format(value) {
            Ok(format) => Ok(SweepOptions { format, ..o }),
            Err(e) => Err(e),
        }
    } else {
        Err("unknown flag: "@ + flag + "\n"@ + SWEEP_USAGE@)
    }
}

/// The options after all flags, which come in pairs with their values; or the
/// first complaint.
pub open spec fn with_flags<R: Fn(String) -> Result<Double, String>>(
    f: R,
    o: SweepOptions,
    rest: Seq<Seq<char>>,
) -> Result<SweepOptions, Seq<char>>
    decreases rest.len(),
{
    if rest.len() == 0 {
        Ok(o)
    } else if rest.len() == 1 {
        Err("missing value for "@ + rest[0])
    } else {
        match with_flag(f, o, rest[0], rest[1]) {
            Err(e) => Err(e),
            Ok(next) => with_flags(f, next, rest.skip(2)),
        }
    }
}

/// What the sweep is to do.
pub struct SweepArgs {
    pub file: String,
    pub bucket_volumes: Vec<Double>,
    pub sigma_windows: Vec<usize>,
    pub vpin_windows: Vec<usize>,
    pub cdf_window: Option<usize>,
    pub format: OutputFormat,
}

/// What the sweep's arguments come to: the file, and options of which the
/// three lists are required.
pub open spec fn sweep_args<R: Fn(String) -> Result<Double, String>>(
    f: R,
    args: Seq<Seq<char>>,
) -> Result<(Seq<char>, SweepOptions), Seq<char>> {
    if args.len() == 0 {
        Err(SWEEP_USAGE@)
    } else {
        match with_flags(f, no_options(), args.skip(1)) {
            Err(e) => Err(e),
            Ok(o) => if o.bucket_volumes is None {
                Err("missing --bucket-volumes\n"@ + SWEEP_USAGE@)
            } else if o.sigma_windows is None {
                Err("missing --sigma-windows\n"@ + SWEEP_USAGE@)
            } else if o.vpin_windows is None {
                Err("missing --vpin-windows\n"@ + SWEEP_USAGE@)
            } else {
                Ok((args[0], o))
            },
        }
    }
}

/// The arguments by what they hold.
pub open spec fn args_view(r: Result<SweepArgs, String>) -> Result<
    (Seq<char>, SweepOptions),
    Seq<char>,
> {
    match r {
        Err(e) => Err(e@),
        Ok(a) => Ok(
            (
                a.file@,
                SweepOptions {
                    bucket_volumes: Some(a.bucket_volumes@),
                    sigma_windows: Some(a.sigma_windows@),
                    vpin_windows: Some(a.vpin_windows@),
                    cdf_window: a.cdf_window,
                    format: a.format,
                },
            ),
        ),
    }
}

pub open spec fn option_list<T>(v: Option<Vec<T>>) -> Option<Seq<T>> {
    match v {
        Some(xs) => Some(xs@),
        None => None,
    }
}

fn missing_value(flag: &str) -> (r: String)
    ensures
        r@ == "missing value for "@ + flag@,
{
    let head: String = "missing value for ".to_owned();
    head.concat(flag)
}

fn unknown_flag(flag: &str, usage: &str) -> (r: String)
    ensures
        r@ == "unknown flag: "@ + flag@ + "\n"@ + usage@,
{
    let head: String = "unknown flag: ".to_owned();
    head.concat(flag).concat("\n").concat(usage)
}

fn bad_flag_value(head: &str, value: &str, why: &str) -> (r: String)
    ensures
        r@ == head@ + debug_quoted(value@) + ": "@ + why@,
{
    head.to_owned().concat(quoted(value).as_str()).concat(": ").concat(why)
}

/// The sweep's arguments, the program's name already taken off.
pub fn parse_args<R: Fn(String) -> Result<Double, String>>(reader: &R, args: &Vec<String>) -> (r:
    Result<SweepArgs, String>)
    requires
        is_reader(*reader),
    ensures
        args_view(r) == sweep_args(*reader, views(args@)),
{
    if args.len() == 0 {
        return Err(SWEEP_USAGE.to_owned());
    }
    let ghost all = views(args@);
    let mut bucket_volumes: Option<Vec<Double>> = None;
    let mut sigma_windows: Option<Vec<usize>> = None;
    let mut vpin_windows: Option<Vec<usize>> = None;
    let mut cdf_window: Option<usize> = None;
    let mut format: OutputFormat = OutputFormat::Table;
    let mut i: usize = 1;
    while i < args.len()
        invariant
            1 <= i <= args.len(),
            is_reader(*reader),
            all == views(args@),
            with_flags(*reader, no_options(), all.skip(1)) == with_flags(
                *reader,
                SweepOptions {
                    bucket_volumes: option_list(bucket_volumes),
                    sigma_windows: option_list(sigma_windows),
                    vpin_windows: option_list(vpin_windows),
                    cdf_window,
                    format,
                },
                all.skip(i as int),
            ),
        decreases args.len() - i,
    {
        let ghost rest = all.skip(i as int);
        let ghost before = SweepOptions {
            bucket_volumes: option_list(bucket_volumes),
            sigma_windows: option_list(sigma_windows),
            vpin_windows: option_list(vpin_windows),
            cdf_window,
            format,
        };
        let flag: &str = args[i].as_str();
        assert(rest[0] == flag@);
        if args.len() - i < 2 {
            assert(rest.len() == 1);
            return Err(missing_value(flag));
        }
        let value: &str = args[i + 1].as_str();
        proof {
            assert(rest[1] == value@);
            assert(rest.skip(2) =~= all.skip(i + 2));
        }
        if same_text(flag, "--bucket-volumes") {
            match parse_doubles(reader, value, flag) {
                Ok(xs) => {
                    bucket_volumes = Some(xs);
                },
                Err(e) => {
                    return Err(e);
                },
            }
        } else if same_text(flag, "--sigma-windows") {
            match parse_sizes(value, flag) {
                Ok(ns) => {
                    sigma_windows = Some(ns);
                },
                Err(e) => {
                    return Err(e);
                },
            }
        } else if same_text(flag, "--vpin-windows") {
            match parse_sizes(value, flag) {
                Ok(ns) => {
                    vpin_windows = Some(ns);
                },
                Err(e) => {
                    return Err(e);
                },
            }
        } else if same_text(flag, "--cdf-window") {
            match read_usize(value) {
                Ok(n) => {
                    cdf_window = Some(n);
                },
                Err(why) => {
                    return Err(bad_flag_value("bad --cdf-window ", value, why.as_str()));
                },
            }
        } else if same_text(flag, "--format") {
            match OutputFormat::from_str(value) {
                Ok(f) => {
                    format = f;
                },
                Err(e) => {
                    return Err(e);
                },
            }
        } else {
            return Err(unknown_flag(flag, SWEEP_USAGE));
        }
        i += 2;
    }
    assert(all.skip(i as int).len() == 0);
    let bucket_volumes: Vec<Double> = match bucket_volumes {
        Some(v) => v,
        None => {
            let head: String = "missing --bucket-volumes\n".to_owned();
            return Err(head.concat(SWEEP_USAGE));
        },
    };
    let sigma_windows: Vec<usize> = match sigma_windows {
        Some(v) => v,
        None => {
            let head: String = "missing --sigma-windows\n".to_owned();
            return Err(head.concat(SWEEP_USAGE));
        },
    };
    let vpin_windows: Vec<usize> = match vpin_windows {
        Some(v) => v,
        None => {
            let head: String = "missing --vpin-windows\n".to_owned();
            return Err(head.concat(SWEEP_USAGE));
        },
    };
    Ok(
        SweepArgs {
            file: args[0].as_str().to_owned(),
            bucket_volumes,
            sigma_windows,
            vpin_windows,
            cdf_window,
            format,
        },
    )
}

/// What the capture is to do.
pub struct CaptureArgs {
    pub exchange: Exchange,
    pub symbol: String,
    pub output: String,
    /// How many trades may wait before they are flushed.
    pub flush_every: u64,
}

/// What the standard library reads a text as, where a `u64` is wanted.
pub open spec fn u64_read(text: Seq<char>) -> Result<u64, Seq<char>> {
    match unsigned(text) {
        Some(n) if n <= u64::MAX => Ok(n as u64),
        _ => Err(u64_refusal(text)),
    }
}

/// The flush threshold after all flags, which come in pairs with their values;
/// or the first complaint.
pub open spec fn flush_flags(flush_every: u64, rest: Seq<Seq<char>>) -> Result<u64, Seq<char>>
    decreases rest.len(),
{
    if rest.len() == 0 {
        Ok(flush_every)
    } else if rest.len() == 1 {
        Err("missing value for "@ + rest[0])
    } else if rest[0] == "--flush-every"@ {
        match u64_read(rest[1]) {
            Ok(n) => flush_flags(n, rest.skip(2)),
            Err(why) => Err("bad --flush-every "@ + debug_quoted(rest[1]) + ": "@ + why),
        }
    } else {
        Err("unknown flag: "@ + rest[0] + "\n"@ + CAPTURE_USAGE@)
    }
}

/// What the capture's arguments come to: exchange, symbol, output file, and
/// the flush threshold.
pub open spec fn capture_args(args: Seq<Seq<char>>) -> Result<
    (Exchange, Seq<char>, Seq<char>, u64),
    Seq<char>,
> {
    if args.len() < 3 {
        Err(CAPTURE_USAGE@)
    } else {
        match named_exchange(args[0]) {
            None => Err("unknown exchange: "@ + debug_quoted(args[0]) + "\n"@ + CAPTURE_USAGE@),
            Some(exchange) => match flush_flags(100, args.skip(3)) {
                Ok(n) => Ok((exchange, args[1], args[2], n)),
                Err(e) => Err(e),
            },
        }
    }
}

/// The arguments by what they hold.
pub open spec fn capture_args_view(r: Result<CaptureArgs, String>) -> Result<
    (Exchange, Seq<char>, Seq<char>, u64),
    Seq<char>,
> {
    match r {
        Ok(a) => Ok((a.exchange, a.symbol@, a.output@, a.flush_every)),
        Err(e) => Err(e@),
    }
}

/// The capture's arguments, the program's name already taken off.
pub fn parse_capture_args(args: &Vec<String>) -> (r: Result<CaptureArgs, String>)
    ensures
        capture_args_view(r) == capture_args(views(args@)),
{
    if args.len() < 3 {
        return Err(CAPTURE_USAGE.to_owned());
    }
    let ghost all = views(args@);
    assert(all[0] == args@[0]@);
    let exchange: Exchange = match parse_exchange(args[0].as_str()) {
        Some(e) => e,
        None => {
            let head: String = "unknown exchange: ".to_owned();
            return Err(
                head.concat(quoted(args[0].as_str()).as_str()).concat("\n").concat(CAPTURE_USAGE),
            );
        },
    };
    let mut flush_every: u64 = 100;
    let mut i: usize = 3;
    while i < args.len()
        invariant
            3 <= i <= args.len(),
            all == views(args@),
            flush_flags(100, all.skip(3)) == flush_flags(flush_every, all.skip(i as int)),
            named_exchange(all[0]) == Some(exchange),
        decreases args.len() - i,
    {
        let ghost rest = all.skip(i as int);
        let flag: &str = args[i].as_str();
        assert(rest[0] == flag@);
        if args.len() - i < 2 {
            assert(rest.len() == 1);
            return Err(missing_value(flag));
        }
        let value: &str = args[i + 1].as_str();
        proof {
            assert(rest[1] == value@);
            assert(rest.skip(2) =~= all.skip(i + 2));
        }
        if same_text(flag, "--flush-every") {
            match read_u64(value) {
                Ok(n) => {
                    flush_every = n;
                },
                Err(why) => {
                    return Err(bad_flag_value("bad --flush-every ", value, why.as_str()));
                },
            }
        } else {
            return Err(unknown_flag(flag, CAPTURE_USAGE));
        }
        i += 2;
    }
    assert(all.skip(i as int).len() == 0);
    Ok(
        CaptureArgs {
            exchange,
            symbol: args[1].as_str().to_owned(),
            output: args[2].as_str().to_owned(),
            flush_every,
        },
    )
}

} // verus!
