//! Numbers as text. Writing a double out and reading one in are asked of the
//! caller; contracts speak of them through `written` and `read`.

use crate::double::Double;
use crate::text::unsigned;
use vstd::prelude::*;

verus! {

/// How a number is to be written out.
#[derive(Clone, Copy, Debug, PartialEq, Eq, Structural)]
pub enum Digits {
    /// With the fewest digits that read back as the same number.
    Shortest,
    /// With this many decimals.
    Fixed(u8),
}

/// A writer writes every number, and always with the same characters.
pub open spec fn is_writer<W: Fn(Double, Digits) -> String>(w: W) -> bool {
    &&& forall|x: Double, d: Digits| call_requires(w, (x, d))
    &&& forall|x: Double, d: Digits, r1: String, r2: String|
        call_ensures(w, (x, d), r1) && call_ensures(w, (x, d), r2) ==> r1@ == r2@
}

/// What the writer `w` writes for `x`.
pub open spec fn written<W: Fn(Double, Digits) -> String>(w: W, x: Double, d: Digits) -> Seq<char> {
    (choose|r: String| call_ensures(w, (x, d), r))@
}

/// Has `x` written out.
pub fn write_double<W: Fn(Double, Digits) -> String>(writer: &W, x: Double, d: Digits) -> (r: String)
    requires
        is_writer(*writer),
    ensures
        r@ == written(*writer, x, d),
{
    writer(x, d)
}

/// What reading a number comes to: the number, or the reason against it.
pub open spec fn reading_of(r: Result<Double, String>) -> Result<Double, Seq<char>> {
    match r {
        Ok(x) => Ok(x),
        Err(e) => Err(e@),
    }
}

/// A reader reads every text, and always in the same way.
pub open spec fn is_reader<R: Fn(String) -> Result<Double, String>>(f: R) -> bool {
    &&& forall|s: String| call_requires(f, (s,))
    &&& forall|s1: String, s2: String, r1: Result<Double, String>, r2: Result<Double, String>|
        call_ensures(f, (s1,), r1) && call_ensures(f, (s2,), r2) && s1@ == s2@ ==> reading_of(r1)
            == reading_of(r2)
}

/// Whether the reader `f` reads a text as `out`.
pub open spec fn reads<R: Fn(String) -> Result<Double, String>>(
    f: R,
    text: Seq<char>,
    out: Result<Double, Seq<char>>,
) -> bool {
    exists|s: String, r: Result<Double, String>| #[trigger]
        call_ensures(f, (s,), r) && s@ == text && reading_of(r) == out
}

/// What the reader `f` reads a text as.
pub open spec fn read<R: Fn(String) -> Result<Double, String>>(f: R, text: Seq<char>) -> Result<
    Double,
    Seq<char>,
> {
    choose|out: Result<Double, Seq<char>>| reads(f, text, out)
}

/// Has a text read.
pub fn read_double<R: Fn(String) -> Result<Double, String>>(reader: &R, text: String) -> (r: Result<
    Double,
    String,
>)
    requires
        is_reader(*reader),
    ensures
        reading_of(r) == read(*reader, text@),
{
    let ghost s = text;
    let r: Result<Double, String> = reader(text);
    assert(reads(*reader, s@, reading_of(r)));
    r
}

/// Why `str::parse::<usize>` of the standard library refuses a text.
pub uninterp spec fn usize_refusal(text: Seq<char>) -> Seq<char>;

/// `str::parse::<usize>` of the standard library reads an optional plus sign
/// and decimal digits, and refuses what is not that or does not fit. The
/// refusal is handed on as its display text, which is not spelled out here.
#[verifier::external_body]
pub(crate) fn read_usize(s: &str) -> (r: Result<usize, String>)
    ensures
        match r {
            Ok(n) => unsigned(s@) == Some(n as nat),
            Err(e) => !(unsigned(s@) matches Some(n) && n <= usize::MAX) && e@ == usize_refusal(s@),
        },
{
    s.parse::<usize>().map_err(|e| e.to_string())
}

/// Why `str::parse::<u64>` of the standard library refuses a text.
pub uninterp spec fn u64_refusal(text: Seq<char>) -> Seq<char>;

/// `str::parse::<u64>` of the standard library reads an optional plus sign and
/// decimal digits, and refuses what is not that or does not fit. The refusal
/// is handed on as its display text, which is not spelled out here.
#[verifier::external_body]
pub(crate) fn read_u64(s: &str) -> (r: Result<u64, String>)
    ensures
        match r {
            Ok(n) => unsigned(s@) == Some(n as nat),
            Err(e) => !(unsigned(s@) matches Some(n) && n <= u64::MAX) && e@ == u64_refusal(s@),
        },
{
    s.parse::<u64>().map_err(|e| e.to_string())
}

/// A text as the standard library's `Debug` quotes it.
pub uninterp spec fn debug_quoted(text: Seq<char>) -> Seq<char>;

/// `Debug` for `str` of the standard library puts a text in double quotes and
/// escapes what needs it. The escapes are not spelled out here.
#[verifier::external_body]
pub(crate) fn quoted(s: &str) -> (r: String)
    ensures
        r@ == debug_quoted(s@),
{
    format!("{s:?}")
}

} // verus!
