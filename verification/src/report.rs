//! The sweep's report: a table for people, CSV and JSON for programs.

use crate::calibrate::Stats;
use crate::double::Double;
use crate::error::vpin_error_text;
use crate::json::{
    entry_trees, is_number_maker, json_count, json_double, json_null, json_object, json_pretty,
    json_string, json_tree, json_trees, lemma_own_members, members, number_tree, to_pretty_text,
    JsonTree,
};
use crate::numeral::{is_writer, write_double, written, Digits};
use crate::sweep::SweepResult;
use crate::text::{
    chars_of, decimal, decimal_text, end_lines, ended, has_char, join, joined, lemma_views_push,
    views,
};
use vstd::prelude::*;
use vstd::string::*;

verus! {

/// `n` spaces.
pub open spec fn spaces(n: nat) -> Seq<char> {
    Seq::new(n, |i: int| ' ')
}

/// A text filled up on the left to a width that it does not reach by itself.
pub open spec fn right_aligned(s: Seq<char>, width: nat) -> Seq<char> {
    if s.len() < width {
        spaces((width - s.len()) as nat) + s
    } else {
        s
    }
}

/// Fills a text up on the left.
pub fn align_right(s: &str, width: usize) -> (r: String)
    ensures
        r@ == right_aligned(s@, width as nat),
{
    let chars: Vec<char> = chars_of(s);
    let mut out: String = String::new();
    let mut n: usize = chars.len();
    while n < width
        invariant
            chars@.len() <= n,
            n <= width || n == chars@.len(),
            chars@.len() == s@.len(),
            out@ =~= spaces((n - chars@.len()) as nat),
        decreases width - n,
    {
        out.push(' ');
        n += 1;
    }
    out.append(s);
    assert(out@ =~= right_aligned(s@, width as nat));
    out
}

/// A p-value as the table shows it: a dash where there is none.
pub open spec fn p_value_text<W: Fn(Double, Digits) -> String>(w: W, p: Double) -> Seq<char> {
    if p.nan() {
        "-"@
    } else {
        written(w, p, Digits::Fixed(4))
    }
}

pub fn format_p_value<W: Fn(Double, Digits) -> String>(writer: &W, p: Double) -> (r: String)
    requires
        is_writer(*writer),
    ensures
        r@ == p_value_text(*writer, p),
{
    if p.is_nan() {
        "-".to_owned()
    } else {
        write_double(writer, p, Digits::Fixed(4))
    }
}

/// The table's columns.
pub open spec fn table_header() -> Seq<Seq<char>> {
    seq![
        right_aligned("bucket_volume"@, 14),
        right_aligned("sigma_window"@, 12),
        right_aligned("vpin_window"@, 11),
        right_aligned("total_buckets"@, 14),
        right_aligned("non_warmup_reads"@, 16),
        right_aligned("vpin_mean"@, 10),
        right_aligned("vpin_min"@, 10),
        right_aligned("vpin_max"@, 10),
        right_aligned("vpin_std"@, 10),
        right_aligned("avg_interval_ms"@, 18),
        right_aligned("bvc_accuracy"@, 12),
        right_aligned("bvc_mae"@, 10),
        right_aligned("bvc_n"@, 8),
        right_aligned("bvc_p_value"@, 12),
    ]
}

/// A point's cells, each under its column.
pub open spec fn table_cells<W: Fn(Double, Digits) -> String>(w: W, s: Stats) -> Seq<Seq<char>> {
    let four = Digits::Fixed(4);
    seq![
        right_aligned(written(w, s.bucket_volume, four), 14),
        right_aligned(decimal(s.sigma_window as nat), 12),
        right_aligned(decimal(s.vpin_window as nat), 11),
        right_aligned(decimal(s.total_buckets as nat), 14),
        right_aligned(decimal(s.non_warmup_readings as nat), 16),
        right_aligned(written(w, s.vpin_mean, four), 10),
        right_aligned(written(w, s.vpin_min, four), 10),
        right_aligned(written(w, s.vpin_max, four), 10),
        right_aligned(written(w, s.vpin_stddev, four), 10),
        right_aligned(written(w, s.avg_bucket_interval_ms, Digits::Fixed(1)), 18),
        right_aligned(written(w, s.bvc_accuracy, four), 12),
        right_aligned(written(w, s.bvc_mean_abs_error, four), 10),
        right_aligned(decimal(s.bvc_compared as nat), 8),
        right_aligned(p_value_text(w, s.bvc_accuracy_p_value), 12),
    ]
}

/// A point's line in the table.
pub open spec fn table_line<W: Fn(Double, Digits) -> String>(w: W, r: SweepResult) -> Seq<char> {
    match r.stats {
        Ok(s) => joined(table_cells(w, s), " "@),
        Err(e) => joined(
            seq![
                right_aligned(written(w, r.bucket_volume, Digits::Fixed(4)), 14),
                right_aligned(decimal(r.sigma_window as nat), 12),
                right_aligned(decimal(r.vpin_window as nat), 11),
            ],
            " "@,
        ) + "  invalid config: "@ + vpin_error_text(w, e),
    }
}

/// The table's explanation of its columns.
pub open spec fn table_notes() -> Seq<Seq<char>> {
    seq![
        "bvc_accuracy: fraction of buckets where BVC's buy/sell majority call matched the real taker-side majority (by volume)."@,
        "bvc_mae: mean |BVC's buy_fraction - true buy_fraction| across compared buckets. Both NaN if sigma never warmed up."@,
        "bvc_p_value: two-proportion z-test p-value vs. the sweep's best bvc_accuracy. \"-\" for the best config itself, or under 30 compared buckets on either side."@,
    ]
}

/// The whole table, line by line.
pub open spec fn table_lines<W: Fn(Double, Digits) -> String>(
    w: W,
    trades_len: nat,
    file: Seq<char>,
    rs: Seq<SweepResult>,
) -> Seq<Seq<char>> {
    seq![
        "loaded "@ + decimal(trades_len) + " trades from "@ + file,
        Seq::<char>::empty(),
        joined(table_header(), " "@),
    ] + rs.map_values(|r: SweepResult| table_line(w, r)) + seq![Seq::<char>::empty()]
        + table_notes()
}

fn header_cells() -> (r: Vec<String>)
    ensures
        views(r@) == table_header(),
{
    let mut cells: Vec<String> = Vec::new();
    cells.push(align_right("bucket_volume", 14));
    cells.push(align_right("sigma_window", 12));
    cells.push(align_right("vpin_window", 11));
    cells.push(align_right("total_buckets", 14));
    cells.push(align_right("non_warmup_reads", 16));
    cells.push(align_right("vpin_mean", 10));
    cells.push(align_right("vpin_min", 10));
    cells.push(align_right("vpin_max", 10));
    cells.push(align_right("vpin_std", 10));
    cells.push(align_right("avg_interval_ms", 18));
    cells.push(align_right("bvc_accuracy", 12));
    cells.push(align_right("bvc_mae", 10));
    cells.push(align_right("bvc_n", 8));
    cells.push(align_right("bvc_p_value", 12));
    assert(views(cells@) =~= table_header());
    cells
}

fn number_cell<W: Fn(Double, Digits) -> String>(
    writer: &W,
    x: Double,
    d: Digits,
    width: usize,
) -> (r: String)
    requires
        is_writer(*writer),
    ensures
        r@ == right_aligned(written(*writer, x, d), width as nat),
{
    align_right(write_double(writer, x, d).as_str(), width)
}

fn count_cell(n: u64, width: usize) -> (r: String)
    ensures
        r@ == right_aligned(decimal(n as nat), width as nat),
{
    align_right(decimal_text(n).as_str(), width)
}

fn stats_cells<W: Fn(Double, Digits) -> String>(writer: &W, s: &Stats) -> (r: Vec<String>)
    requires
        is_writer(*writer),
    ensures
        views(r@) == table_cells(*writer, *s),
{
    let four: Digits = Digits::Fixed(4);
    let mut cells: Vec<String> = Vec::new();
    cells.push(number_cell(writer, s.bucket_volume, four, 14));
    cells.push(count_cell(s.sigma_window as u64, 12));
    cells.push(count_cell(s.vpin_window as u64, 11));
    cells.push(count_cell(s.total_buckets, 14));
    cells.push(count_cell(s.non_warmup_readings, 16));
    cells.push(number_cell(writer, s.vpin_mean, four, 10));
    cells.push(number_cell(writer, s.vpin_min, four, 10));
    cells.push(number_cell(writer, s.vpin_max, four, 10));
    cells.push(number_cell(writer, s.vpin_stddev, four, 10));
    cells.push(number_cell(writer, s.avg_bucket_interval_ms, Digits::Fixed(1), 18));
    cells.push(number_cell(writer, s.bvc_accuracy, four, 12));
    cells.push(number_cell(writer, s.bvc_mean_abs_error, four, 10));
    cells.push(count_cell(s.bvc_compared, 8));
    cells.push(align_right(format_p_value(writer, s.bvc_accuracy_p_value).as_str(), 12));
    assert(views(cells@) =~= table_cells(*writer, *s));
    cells
}

fn row_line<W: Fn(Double, Digits) -> String>(writer: &W, r: &SweepResult) -> (line: String)
    requires
        is_writer(*writer),
    ensures
        line@ == table_line(*writer, *r),
{
    match r.stats {
        Ok(s) => join(&stats_cells(writer, &s), " "),
        Err(e) => {
            let mut cells: Vec<String> = Vec::new();
            cells.push(number_cell(writer, r.bucket_volume, Digits::Fixed(4), 14));
            cells.push(count_cell(r.sigma_window as u64, 12));
            cells.push(count_cell(r.vpin_window as u64, 11));
            assert(views(cells@) =~= seq![
                right_aligned(written(*writer, r.bucket_volume, Digits::Fixed(4)), 14),
                right_aligned(decimal(r.sigma_window as nat), 12),
                right_aligned(decimal(r.vpin_window as nat), 11),
            ]);
            let head: String = join(&cells, " ");
            head.concat("  invalid config: ").concat(e.message(writer).as_str())
        },
    }
}

/// The sweep as a table with a heading and an explanation of its columns.
pub fn table_report<W: Fn(Double, Digits) -> String>(
    writer: &W,
    trades_len: usize,
    file: &str,
    results: &Vec<SweepResult>,
) -> (r: String)
    requires
        is_writer(*writer),
    ensures
        r@ == ended(table_lines(*writer, trades_len as nat, file@, results@)),
{
    let ghost lines_wanted = table_lines(*writer, trades_len as nat, file@, results@);
    let ghost n = results@.len() as int;
    let mut lines: Vec<String> = Vec::new();
    let head: String = "loaded ".to_owned();
    let loaded: String = head.concat(decimal_text(trades_len as u64).as_str());
    lines.push(loaded.concat(" trades from ").concat(file));
    lines.push(String::new());
    lines.push(join(&header_cells(), " "));
    let mut i: usize = 0;
    assert(lines@[1]@ =~= Seq::<char>::empty());
    assert(views(lines@) =~= lines_wanted.take(3));
    while i < results.len()
        invariant
            i <= results@.len(),
            is_writer(*writer),
            n == results@.len(),
            lines_wanted == table_lines(*writer, trades_len as nat, file@, results@),
            views(lines@) =~= lines_wanted.take(i + 3),
        decreases results.len() - i,
    {
        let line: String = row_line(writer, &results[i]);
        proof {
            assert(lines_wanted[i + 3] == table_line(*writer, results@[i as int]));
            lemma_views_push(lines@, line, lines_wanted, i + 3);
        }
        lines.push(line);
        i += 1;
    }
    let gap: String = String::new();
    let accuracy: String =
        "bvc_accuracy: fraction of buckets where BVC's buy/sell majority call matched the real taker-side majority (by volume).".to_owned();
    let mae: String =
        "bvc_mae: mean |BVC's buy_fraction - true buy_fraction| across compared buckets. Both NaN if sigma never warmed up.".to_owned();
    let p_values: String =
        "bvc_p_value: two-proportion z-test p-value vs. the sweep's best bvc_accuracy. \"-\" for the best config itself, or under 30 compared buckets on either side.".to_owned();
    proof {
        assert(gap@ =~= Seq::<char>::empty());
        lemma_views_push(lines@, gap, lines_wanted, n + 3);
        let with_gap = lines@.push(gap);
        lemma_views_push(with_gap, accuracy, lines_wanted, n + 4);
        lemma_views_push(with_gap.push(accuracy), mae, lines_wanted, n + 5);
        lemma_views_push(with_gap.push(accuracy).push(mae), p_values, lines_wanted, n + 6);
        assert(lines_wanted.take(n + 7) =~= lines_wanted);
    }
    lines.push(gap);
    lines.push(accuracy);
    lines.push(mae);
    lines.push(p_values);
    end_lines(&lines)
}

/// Every quote twice.
pub open spec fn quotes_doubled(s: Seq<char>) -> Seq<char>
    decreases s.len(),
{
    if s.len() == 0 {
        Seq::empty()
    } else if s.last() == '"' {
        quotes_doubled(s.drop_last()).push('"').push('"')
    } else {
        quotes_doubled(s.drop_last()).push(s.last())
    }
}

/// Whether a CSV field has to be quoted.
pub open spec fn needs_quotes(s: Seq<char>) -> bool {
    s.contains(',') || s.contains('"') || s.contains('\n')
}

/// A CSV field: quoted, its quotes doubled, where it has to be.
pub open spec fn csv_field(s: Seq<char>) -> Seq<char> {
    if needs_quotes(s) {
        seq!['"'] + quotes_doubled(s) + seq!['"']
    } else {
        s
    }
}

/// Minimal CSV quoting: in double quotes, with inner quotes doubled, only if
/// the field needs it.
pub fn csv_escape(s: &str) -> (r: String)
    ensures
        r@ == csv_field(s@),
{
    if !(has_char(s, ',') || has_char(s, '"') || has_char(s, '\n')) {
        return s.to_owned();
    }
    let chars: Vec<char> = chars_of(s);
    let mut out: String = String::new();
    out.push('"');
    let mut i: usize = 0;
    assert(chars@.take(0) =~= Seq::empty());
    assert(out@ =~= seq!['"'] + quotes_doubled(chars@.take(0)));
    while i < chars.len()
        invariant
            i <= chars@.len(),
            out@ == seq!['"'] + quotes_doubled(chars@.take(i as int)),
        decreases chars.len() - i,
    {
        assert(chars@.take(i + 1).drop_last() =~= chars@.take(i as int));
        if chars[i] == '"' {
            out.push('"');
        }
        out.push(chars[i]);
        i += 1;
        assert(out@ =~= seq!['"'] + quotes_doubled(chars@.take(i as int)));
    }
    assert(chars@.take(i as int) =~= s@);
    out.push('"');
    assert(out@ =~= csv_field(s@));
    out
}

/// A number in CSV.
pub open spec fn csv_number<W: Fn(Double, Digits) -> String>(w: W, x: Double) -> Seq<char> {
    if x.nan() {
        "NaN"@
    } else {
        written(w, x, Digits::Shortest)
    }
}

pub fn csv_f64<W: Fn(Double, Digits) -> String>(writer: &W, x: Double) -> (r: String)
    requires
        is_writer(*writer),
    ensures
        r@ == csv_number(*writer, x),
{
    if x.is_nan() {
        "NaN".to_owned()
    } else {
        write_double(writer, x, Digits::Shortest)
    }
}

/// The names of the CSV columns.
pub open spec fn csv_columns() -> Seq<Seq<char>> {
    seq![
        "bucket_volume"@,
        "sigma_window"@,
        "vpin_window"@,
        "total_buckets"@,
        "non_warmup_readings"@,
        "vpin_mean"@,
        "vpin_min"@,
        "vpin_max"@,
        "vpin_stddev"@,
        "avg_bucket_interval_ms"@,
        "bvc_accuracy"@,
        "bvc_mean_abs_error"@,
        "bvc_compared"@,
        "bvc_accuracy_p_value"@,
        "error"@,
    ]
}

/// A point's CSV fields. A refused configuration has its parameters and its
/// error, and nothing in between.
pub open spec fn csv_fields<W: Fn(Double, Digits) -> String>(w: W, r: SweepResult) -> Seq<
    Seq<char>,
> {
    let none = Seq::<char>::empty();
    match r.stats {
        Ok(s) => seq![
            written(w, s.bucket_volume, Digits::Shortest),
            decimal(s.sigma_window as nat),
            decimal(s.vpin_window as nat),
            decimal(s.total_buckets as nat),
            decimal(s.non_warmup_readings as nat),
            csv_number(w, s.vpin_mean),
            csv_number(w, s.vpin_min),
            csv_number(w, s.vpin_max),
            csv_number(w, s.vpin_stddev),
            csv_number(w, s.avg_bucket_interval_ms),
            csv_number(w, s.bvc_accuracy),
            csv_number(w, s.bvc_mean_abs_error),
            decimal(s.bvc_compared as nat),
            csv_number(w, s.bvc_accuracy_p_value),
            none,
        ],
        Err(e) => seq![
            written(w, r.bucket_volume, Digits::Shortest),
            decimal(r.sigma_window as nat),
            decimal(r.vpin_window as nat),
        ] + Seq::new(11, |i: int| none) + seq![csv_field(vpin_error_text(w, e))],
    }
}

/// The CSV header.
pub fn csv_header() -> (r: String)
    ensures
        r@ == joined(csv_columns(), ","@),
{
    let mut names: Vec<String> = Vec::new();
    names.push("bucket_volume".to_owned());
    names.push("sigma_window".to_owned());
    names.push("vpin_window".to_owned());
    names.push("total_buckets".to_owned());
    names.push("non_warmup_readings".to_owned());
    names.push("vpin_mean".to_owned());
    names.push("vpin_min".to_owned());
    names.push("vpin_max".to_owned());
    names.push("vpin_stddev".to_owned());
    names.push("avg_bucket_interval_ms".to_owned());
    names.push("bvc_accuracy".to_owned());
    names.push("bvc_mean_abs_error".to_owned());
    names.push("bvc_compared".to_owned());
    names.push("bvc_accuracy_p_value".to_owned());
    names.push("error".to_owned());
    assert(views(names@) =~= csv_columns());
    join(&names, ",")
}

/// A point's CSV fields: as many as the header has columns.
pub fn csv_row<W: Fn(Double, Digits) -> String>(writer: &W, r: &SweepResult) -> (fields: Vec<
    String,
>)
    requires
        is_writer(*writer),
    ensures
        views(fields@) == csv_fields(*writer, *r),
        fields@.len() == csv_columns().len(),
{
    let mut fields: Vec<String> = Vec::new();
    match r.stats {
        Ok(s) => {
            fields.push(write_double(writer, s.bucket_volume, Digits::Shortest));
            fields.push(decimal_text(s.sigma_window as u64));
            fields.push(decimal_text(s.vpin_window as u64));
            fields.push(decimal_text(s.total_buckets));
            fields.push(decimal_text(s.non_warmup_readings));
            fields.push(csv_f64(writer, s.vpin_mean));
            fields.push(csv_f64(writer, s.vpin_min));
            fields.push(csv_f64(writer, s.vpin_max));
            fields.push(csv_f64(writer, s.vpin_stddev));
            fields.push(csv_f64(writer, s.avg_bucket_interval_ms));
            fields.push(csv_f64(writer, s.bvc_accuracy));
            fields.push(csv_f64(writer, s.bvc_mean_abs_error));
            fields.push(decimal_text(s.bvc_compared));
            fields.push(csv_f64(writer, s.bvc_accuracy_p_value));
            let none: String = String::new();
            assert(none@ =~= Seq::<char>::empty());
            fields.push(none);
        },
        Err(e) => {
            fields.push(write_double(writer, r.bucket_volume, Digits::Shortest));
            fields.push(decimal_text(r.sigma_window as u64));
            fields.push(decimal_text(r.vpin_window as u64));
            let ghost wanted = csv_fields(*writer, *r);
            let mut i: usize = 0;
            assert(views(fields@) =~= wanted.take(3));
            while i < 11
                invariant
                    i <= 11,
                    wanted == csv_fields(*writer, *r),
                    r.stats is Err,
                    views(fields@) =~= wanted.take(i + 3),
                decreases 11 - i,
            {
                let none: String = String::new();
                proof {
                    assert(none@ =~= Seq::<char>::empty());
                    lemma_views_push(fields@, none, wanted, i + 3);
                }
                fields.push(none);
                i += 1;
            }
            let error: String = csv_escape(e.message(writer).as_str());
            proof {
                lemma_views_push(fields@, error, wanted, 14);
                assert(wanted.take(15) =~= wanted);
            }
            fields.push(error);
        },
    }
    assert(views(fields@) =~= csv_fields(*writer, *r));
    assert(views(fields@).len() == fields@.len());
    fields
}

/// The sweep as CSV lines, the header first.
pub open spec fn csv_lines<W: Fn(Double, Digits) -> String>(w: W, rs: Seq<SweepResult>) -> Seq<
    Seq<char>,
> {
    seq![joined(csv_columns(), ","@)] + rs.map_values(
        |r: SweepResult| joined(csv_fields(w, r), ","@),
    )
}

/// The sweep as CSV.
pub fn csv_report<W: Fn(Double, Digits) -> String>(writer: &W, results: &Vec<SweepResult>) -> (r:
    String)
    requires
        is_writer(*writer),
    ensures
        r@ == ended(csv_lines(*writer, results@)),
{
    let mut lines: Vec<String> = Vec::new();
    lines.push(csv_header());
    let mut i: usize = 0;
    assert(views(lines@) =~= csv_lines(*writer, results@).take(1));
    while i < results.len()
        invariant
            i <= results@.len(),
            is_writer(*writer),
            views(lines@) =~= csv_lines(*writer, results@).take(i + 1),
        decreases results.len() - i,
    {
        let line: String = join(&csv_row(writer, &results[i]), ",");
        proof {
            lemma_views_push(lines@, line, csv_lines(*writer, results@), i + 1);
        }
        lines.push(line);
        i += 1;
    }
    assert(views(lines@) =~= csv_lines(*writer, results@));
    end_lines(&lines)
}

/// A point's JSON members.
pub open spec fn stats_entries<W: Fn(Double, Digits) -> String>(w: W, r: SweepResult) -> Seq<
    (Seq<char>, JsonTree),
> {
    match r.stats {
        Ok(s) => seq![
            ("bucket_volume"@, number_tree(s.bucket_volume)),
            ("sigma_window"@, JsonTree::Count(s.sigma_window as nat)),
            ("vpin_window"@, JsonTree::Count(s.vpin_window as nat)),
            ("total_buckets"@, JsonTree::Count(s.total_buckets as nat)),
            ("non_warmup_readings"@, JsonTree::Count(s.non_warmup_readings as nat)),
            ("vpin_mean"@, number_tree(s.vpin_mean)),
            ("vpin_min"@, number_tree(s.vpin_min)),
            ("vpin_max"@, number_tree(s.vpin_max)),
            ("vpin_stddev"@, number_tree(s.vpin_stddev)),
            ("avg_bucket_interval_ms"@, number_tree(s.avg_bucket_interval_ms)),
            ("bvc_accuracy"@, number_tree(s.bvc_accuracy)),
            ("bvc_mean_abs_error"@, number_tree(s.bvc_mean_abs_error)),
            ("bvc_compared"@, JsonTree::Count(s.bvc_compared as nat)),
            ("bvc_accuracy_p_value"@, number_tree(s.bvc_accuracy_p_value)),
            ("error"@, JsonTree::Null),
        ],
        Err(e) => seq![
            ("bucket_volume"@, number_tree(r.bucket_volume)),
            ("sigma_window"@, JsonTree::Count(r.sigma_window as nat)),
            ("vpin_window"@, JsonTree::Count(r.vpin_window as nat)),
            ("error"@, JsonTree::Text(vpin_error_text(w, e))),
        ],
    }
}

/// A point as a JSON object.
pub open spec fn stats_tree<W: Fn(Double, Digits) -> String>(w: W, r: SweepResult) -> JsonTree {
    JsonTree::Object(members(stats_entries(w, r)))
}

/// A point as a JSON object: a refused configuration has its parameters and
/// its error only.
pub fn stats_to_json<W: Fn(Double, Digits) -> String, N: Fn(Double) -> serde_json::Value>(
    writer: &W,
    number: &N,
    r: &SweepResult,
) -> (v: serde_json::Value)
    requires
        is_writer(*writer),
        is_number_maker(*number),
    ensures
        json_tree(v) == stats_tree(*writer, *r),
{
    let mut es: Vec<(String, serde_json::Value)> = Vec::new();
    match r.stats {
        Ok(s) => {
            es.push(("bucket_volume".to_owned(), json_double(number, s.bucket_volume)));
            es.push(("sigma_window".to_owned(), json_count(s.sigma_window as u64)));
            es.push(("vpin_window".to_owned(), json_count(s.vpin_window as u64)));
            es.push(("total_buckets".to_owned(), json_count(s.total_buckets)));
            es.push(("non_warmup_readings".to_owned(), json_count(s.non_warmup_readings)));
            es.push(("vpin_mean".to_owned(), json_double(number, s.vpin_mean)));
            es.push(("vpin_min".to_owned(), json_double(number, s.vpin_min)));
            es.push(("vpin_max".to_owned(), json_double(number, s.vpin_max)));
            es.push(("vpin_stddev".to_owned(), json_double(number, s.vpin_stddev)));
            es.push(
                (
                    "avg_bucket_interval_ms".to_owned(),
                    json_double(number, s.avg_bucket_interval_ms),
                ),
            );
            es.push(("bvc_accuracy".to_owned(), json_double(number, s.bvc_accuracy)));
            es.push(("bvc_mean_abs_error".to_owned(), json_double(number, s.bvc_mean_abs_error)));
            es.push(("bvc_compared".to_owned(), json_count(s.bvc_compared)));
            es.push(
                ("bvc_accuracy_p_value".to_owned(), json_double(number, s.bvc_accuracy_p_value)),
            );
            es.push(("error".to_owned(), json_null()));
        },
        Err(e) => {
            es.push(("bucket_volume".to_owned(), json_double(number, r.bucket_volume)));
            es.push(("sigma_window".to_owned(), json_count(r.sigma_window as u64)));
            es.push(("vpin_window".to_owned(), json_count(r.vpin_window as u64)));
            es.push(("error".to_owned(), json_string(e.message(writer).as_str())));
        },
    }
    assert(entry_trees(es@) =~= stats_entries(*writer, *r));
    json_object(es)
}

/// The sweep as indented JSON, one object per point.
pub fn json_report<W: Fn(Double, Digits) -> String, N: Fn(Double) -> serde_json::Value>(
    writer: &W,
    number: &N,
    results: &Vec<SweepResult>,
) -> (r: Result<String, serde_json::Error>)
    requires
        is_writer(*writer),
        is_number_maker(*number),
    ensures
        r matches Ok(text) && text@ == json_pretty(
            results@.map_values(|p: SweepResult| stats_tree(*writer, p)),
        ),
{
    let mut rows: Vec<serde_json::Value> = Vec::new();
    let mut i: usize = 0;
    let ghost wanted = results@.map_values(|p: SweepResult| stats_tree(*writer, p));
    while i < results.len()
        invariant
            i <= results@.len(),
            is_writer(*writer),
            is_number_maker(*number),
            wanted == results@.map_values(|p: SweepResult| stats_tree(*writer, p)),
            json_trees(rows@) =~= wanted.take(i as int),
        decreases results.len() - i,
    {
        let row: serde_json::Value = stats_to_json(writer, number, &results[i]);
        assert(json_trees(rows@.push(row)) =~= json_trees(rows@).push(json_tree(row)));
        assert(wanted.take(i + 1) =~= wanted.take(i as int).push(wanted[i as int]));
        rows.push(row);
        i += 1;
    }
    assert(json_trees(rows@) =~= wanted);
    to_pretty_text(&rows)
}

/// Every two quotes as one.
pub open spec fn quotes_halved(s: Seq<char>) -> Seq<char>
    decreases s.len(),
{
    if s.len() == 0 {
        Seq::empty()
    } else if s.last() == '"' && s.len() >= 2 {
        quotes_halved(s.drop_last().drop_last()).push('"')
    } else {
        quotes_halved(s.drop_last()).push(s.last())
    }
}

/// What a CSV field stands for.
pub open spec fn csv_meaning(field: Seq<char>) -> Seq<char> {
    if field.len() >= 2 && field[0] == '"' {
        quotes_halved(field.subrange(1, field.len() - 1))
    } else {
        field
    }
}

proof fn lemma_quotes_halved(s: Seq<char>)
    ensures
        quotes_halved(quotes_doubled(s)) == s,
    decreases s.len(),
{
    if s.len() > 0 {
        lemma_quotes_halved(s.drop_last());
        let t = quotes_doubled(s.drop_last());
        if s.last() == '"' {
            assert(quotes_doubled(s).drop_last().drop_last() =~= t);
        } else {
            assert(quotes_doubled(s).drop_last() =~= t);
        }
        assert(s =~= s.drop_last().push(s.last()));
    }
}

/// An escaped field stands for exactly the text that was escaped.
pub proof fn law_csv_fields_read_back(s: Seq<char>)
    ensures
        csv_meaning(csv_field(s)) == s,
{
    if needs_quotes(s) {
        let f = csv_field(s);
        assert(f.subrange(1, f.len() - 1) =~= quotes_doubled(s));
        lemma_quotes_halved(s);
    } else if s.len() > 0 {
        assert(s.contains(s[0]));
    }
}

/// The names of a point's figures.
spec fn report_keys() -> Seq<Seq<char>> {
    seq![
        "bucket_volume"@,
        "sigma_window"@,
        "vpin_window"@,
        "total_buckets"@,
        "non_warmup_readings"@,
        "vpin_mean"@,
        "vpin_min"@,
        "vpin_max"@,
        "vpin_stddev"@,
        "avg_bucket_interval_ms"@,
        "bvc_accuracy"@,
        "bvc_mean_abs_error"@,
        "bvc_compared"@,
        "bvc_accuracy_p_value"@,
        "error"@,
    ]
}

/// No two figures have the same name.
proof fn lemma_keys_differ()
    ensures
        forall|i: int, j: int|
            0 <= i < j < report_keys().len() ==> #[trigger] report_keys()[i]
                != #[trigger] report_keys()[j],
{
    reveal_strlit("bucket_volume");
    reveal_strlit("sigma_window");
    reveal_strlit("vpin_window");
    reveal_strlit("total_buckets");
    reveal_strlit("non_warmup_readings");
    reveal_strlit("vpin_mean");
    reveal_strlit("vpin_min");
    reveal_strlit("vpin_max");
    reveal_strlit("vpin_stddev");
    reveal_strlit("avg_bucket_interval_ms");
    reveal_strlit("bvc_accuracy");
    reveal_strlit("bvc_mean_abs_error");
    reveal_strlit("bvc_compared");
    reveal_strlit("bvc_accuracy_p_value");
    reveal_strlit("error");
    let keys = report_keys();
    assert(keys[0].len() == 13 && keys[3].len() == 13 && keys[0][0] == 'b' && keys[3][0] == 't');
    assert(keys[1].len() == 12 && keys[10].len() == 12 && keys[12].len() == 12);
    assert(keys[1][4] == 'a' && keys[10][4] == 'a' && keys[12][4] == 'c');
    assert(keys[1][0] == 's' && keys[10][0] == 'b');
    assert(keys[2].len() == 11 && keys[8].len() == 11 && keys[2][5] == 'w' && keys[8][5] == 's');
    assert(keys[6].len() == 8 && keys[7].len() == 8 && keys[6][6] == 'i' && keys[7][6] == 'a');
    assert(keys[4].len() == 19 && keys[5].len() == 9 && keys[9].len() == 22);
    assert(keys[11].len() == 18 && keys[13].len() == 20 && keys[14].len() == 5);
}

/// A point's JSON object has every figure under its own name: counts as counts,
/// and numbers as numbers, with null where JSON has no such number. A refused
/// point has its parameters and the reason, and no figures.
pub proof fn law_json_names_the_figures<W: Fn(Double, Digits) -> String>(w: W, r: SweepResult)
    ensures
        stats_tree(w, r) is Object,
        r.stats matches Ok(s) ==> {
            let m = stats_tree(w, r)->Object_0;
            let figure = |x: Double|
                if x.finite() {
                    JsonTree::Number(x)
                } else {
                    JsonTree::Null
                };
            &&& m.contains_key("bucket_volume"@) && m["bucket_volume"@] == figure(s.bucket_volume)
            &&& m.contains_key("sigma_window"@)
            &&& m["sigma_window"@] == JsonTree::Count(s.sigma_window as nat)
            &&& m.contains_key("vpin_window"@)
            &&& m["vpin_window"@] == JsonTree::Count(s.vpin_window as nat)
            &&& m.contains_key("total_buckets"@)
            &&& m["total_buckets"@] == JsonTree::Count(s.total_buckets as nat)
            &&& m.contains_key("non_warmup_readings"@)
            &&& m["non_warmup_readings"@] == JsonTree::Count(s.non_warmup_readings as nat)
            &&& m.contains_key("vpin_mean"@) && m["vpin_mean"@] == figure(s.vpin_mean)
            &&& m.contains_key("vpin_min"@) && m["vpin_min"@] == figure(s.vpin_min)
            &&& m.contains_key("vpin_max"@) && m["vpin_max"@] == figure(s.vpin_max)
            &&& m.contains_key("vpin_stddev"@) && m["vpin_stddev"@] == figure(s.vpin_stddev)
            &&& m.contains_key("avg_bucket_interval_ms"@)
            &&& m["avg_bucket_interval_ms"@] == figure(s.avg_bucket_interval_ms)
            &&& m.contains_key("bvc_accuracy"@) && m["bvc_accuracy"@] == figure(s.bvc_accuracy)
            &&& m.contains_key("bvc_mean_abs_error"@)
            &&& m["bvc_mean_abs_error"@] == figure(s.bvc_mean_abs_error)
            &&& m.contains_key("bvc_compared"@)
            &&& m["bvc_compared"@] == JsonTree::Count(s.bvc_compared as nat)
            &&& m.contains_key("bvc_accuracy_p_value"@)
            &&& m["bvc_accuracy_p_value"@] == figure(s.bvc_accuracy_p_value)
            &&& m.contains_key("error"@) && m["error"@] == JsonTree::Null
        },
        r.stats matches Err(e) ==> {
            let m = stats_tree(w, r)->Object_0;
            &&& m.contains_key("error"@) && m["error"@] == JsonTree::Text(vpin_error_text(w, e))
            &&& m.contains_key("bucket_volume"@)
            &&& m["bucket_volume"@] == (if r.bucket_volume.finite() {
                JsonTree::Number(r.bucket_volume)
            } else {
                JsonTree::Null
            })
            &&& m.contains_key("sigma_window"@) && m["sigma_window"@] == JsonTree::Count(
                r.sigma_window as nat,
            )
            &&& m.contains_key("vpin_window"@) && m["vpin_window"@] == JsonTree::Count(
                r.vpin_window as nat,
            )
            &&& !m.contains_key("bvc_accuracy"@)
            &&& !m.contains_key("vpin_mean"@)
        },
{
    lemma_keys_differ();
    let entries = stats_entries(w, r);
    let keys = report_keys();
    if r.stats is Ok {
        assert forall|i: int| 0 <= i < keys.len() implies (#[trigger] entries[i]).0 == keys[i] by {}
        lemma_own_members(entries);
        assert(forall|i: int| 0 <= i < 15 ==> members(entries)[#[trigger] keys[i]] == entries[i].1);
    } else {
        assert(entries[0].0 == keys[0] && entries[1].0 == keys[1]);
        assert(entries[2].0 == keys[2] && entries[3].0 == keys[14]);
        lemma_own_members(entries);
        assert(keys[5] == "vpin_mean"@ && keys[10] == "bvc_accuracy"@);
    }
}

} // verus!
