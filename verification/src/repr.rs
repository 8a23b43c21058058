//! Readings as Python shows them.

use crate::double::Double;
use crate::numeral::{is_writer, write_double, written, Digits};
use crate::text::{decimal, decimal_text};
use crate::vpin::VpinReading;
use vstd::prelude::*;
use vstd::string::*;

verus! {

/// A number that may be missing.
pub open spec fn optional_text<W: Fn(Double, Digits) -> String>(w: W, x: Option<Double>) -> Seq<
    char,
> {
    match x {
        Some(v) => written(w, v, Digits::Shortest),
        None => "None"@,
    }
}

pub fn opt_repr<W: Fn(Double, Digits) -> String>(writer: &W, x: Option<Double>) -> (r: String)
    requires
        is_writer(*writer),
    ensures
        r@ == optional_text(*writer, x),
{
    match x {
        Some(v) => write_double(writer, v, Digits::Shortest),
        None => "None".to_owned(),
    }
}

/// A reading, without its timestamp and its interval.
pub open spec fn reading_text<W: Fn(Double, Digits) -> String>(w: W, r: VpinReading) -> Seq<char> {
    "VpinReading(bucket_id="@ + decimal(r.bucket_id as nat) + ", trades_in_bucket="@ + decimal(
        r.trades_in_bucket as nat,
    ) + ", vpin="@ + optional_text(w, r.vpin) + ", vpin_cdf="@ + optional_text(w, r.vpin_cdf)
        + ")"@
}

pub fn reading_repr<W: Fn(Double, Digits) -> String>(writer: &W, reading: &VpinReading) -> (r:
    String)
    requires
        is_writer(*writer),
    ensures
        r@ == reading_text(*writer, *reading),
{
    let head: String = "VpinReading(bucket_id=".to_owned();
    let counted: String = head.concat(decimal_text(reading.bucket_id).as_str()).concat(
        ", trades_in_bucket=",
    ).concat(decimal_text(reading.trades_in_bucket as u64).as_str());
    let scored: String = counted.concat(", vpin=").concat(opt_repr(writer, reading.vpin).as_str());
    scored.concat(", vpin_cdf=").concat(opt_repr(writer, reading.vpin_cdf).as_str()).concat(")")
}

} // verus!
