//! Why an estimator refuses its configuration.

use crate::double::Double;
use crate::numeral::{is_writer, write_double, written, Digits};
use crate::text::{decimal, decimal_text};
use vstd::prelude::*;
use vstd::string::*;

verus! {

#[derive(Clone, Copy, Debug, PartialEq, Eq, Structural)]
pub enum VpinError {
    /// The bucket target volume is not finite and positive.
    InvalidBucketVolume(Double),
    /// A window is too short.
    InvalidWindow { got: usize, min: usize },
    /// The confidence level is not strictly between 0 and 1.
    InvalidConfidenceLevel(Double),
    /// Too few bootstrap resamples.
    InvalidBootstrapSamples { got: usize, min: usize },
}

pub open spec fn vpin_error_text<W: Fn(Double, Digits) -> String>(w: W, e: VpinError) -> Seq<char> {
    match e {
        VpinError::InvalidBucketVolume(x) => "bucket target volume must be finite and positive, got "@
            + written(w, x, Digits::Shortest),
        VpinError::InvalidWindow { got, min } => "window size must be at least "@ + decimal(
            min as nat,
        ) + ", got "@ + decimal(got as nat),
        VpinError::InvalidConfidenceLevel(x) => "confidence level must be strictly between 0 and 1, got "@
            + written(w, x, Digits::Shortest),
        VpinError::InvalidBootstrapSamples { got, min } => "bootstrap samples must be at least "@
            + decimal(min as nat) + ", got "@ + decimal(got as nat),
    }
}

impl VpinError {
    /// The error as a sentence.
    pub fn message<W: Fn(Double, Digits) -> String>(&self, writer: &W) -> (r: String)
        requires
            is_writer(*writer),
        ensures
            r@ == vpin_error_text(*writer, *self),
    {
        match self {
            VpinError::InvalidBucketVolume(x) => {
                let head: String =
                    "bucket target volume must be finite and positive, got ".to_owned();
                head.concat(write_double(writer, *x, Digits::Shortest).as_str())
            },
            VpinError::InvalidWindow { got, min } => {
                let head: String = "window size must be at least ".to_owned();
                let text: String = head.concat(decimal_text(*min as u64).as_str()).concat(", got ");
                text.concat(decimal_text(*got as u64).as_str())
            },
            VpinError::InvalidConfidenceLevel(x) => {
                let head: String =
                    "confidence level must be strictly between 0 and 1, got ".to_owned();
                head.concat(write_double(writer, *x, Digits::Shortest).as_str())
            },
            VpinError::InvalidBootstrapSamples { got, min } => {
                let head: String = "bootstrap samples must be at least ".to_owned();
                let text: String = head.concat(decimal_text(*min as u64).as_str()).concat(", got ");
                text.concat(decimal_text(*got as u64).as_str())
            },
        }
    }
}

} // verus!
