//! Normalized trades, and the exact reading of decimal prices and quantities.

use crate::text::{
    chars_of, decimal, digit_char, digits_between, digits_value, is_digit, is_digits,
    lemma_decimal_value, lemma_digits_value_push, trim, trimmed, unsigned, unsigned_between,
};
use vstd::prelude::*;

verus! {

/// Fixed-point units per whole unit of price or quantity.
pub const SCALE: u64 = 100_000_000;

/// Ground-truth taker side as the exchange reports it.
#[derive(Clone, Copy, Debug, PartialEq, Eq, Structural)]
pub enum TakerSide {
    Buy,
    Sell,
}

impl Default for TakerSide {
    fn default() -> (r: Self)
        ensures
            r == TakerSide::Buy,
    {
        TakerSide::Buy
    }
}

/// The venues.
#[derive(Clone, Copy, Debug, PartialEq, Eq, Structural)]
pub enum Exchange {
    Binance,
    Bybit,
    Hyperliquid,
}

/// A price in units of 1e-8.
#[derive(Clone, Copy, Debug, PartialEq, Eq, Structural)]
pub struct Price {
    pub raw: u64,
}

impl Price {
    pub fn new(raw: u64) -> (r: Self)
        ensures
            r.raw == raw,
    {
        Price { raw }
    }

    pub fn raw(&self) -> (r: u64)
        ensures
            r == self.raw,
    {
        self.raw
    }
}

/// A quantity in units of 1e-8, base asset.
#[derive(Clone, Copy, Debug, PartialEq, Eq, Structural)]
pub struct Qty {
    pub raw: u64,
}

impl Qty {
    pub fn new(raw: u64) -> (r: Self)
        ensures
            r.raw == raw,
    {
        Qty { raw }
    }

    pub fn raw(&self) -> (r: u64)
        ensures
            r == self.raw,
    {
        self.raw
    }
}

/// An instrument name of at most sixteen bytes, filled up with zeros.
#[derive(Clone, Copy, Debug, PartialEq, Eq)]
pub struct Symbol {
    pub bytes: [u8; 16],
}

/// The first sixteen bytes of a name, filled up with zeros.
pub open spec fn padded_name(name: Seq<u8>) -> Seq<u8> {
    Seq::new(
        16,
        |i: int|
            if i < name.len() {
                name[i]
            } else {
                0
            },
    )
}

impl View for Symbol {
    type V = Seq<u8>;

    open spec fn view(&self) -> Seq<u8> {
        self.bytes@
    }
}

impl Symbol {
    pub fn from_bytes(name: &[u8]) -> (r: Self)
        ensures
            r@ == padded_name(name@),
    {
        let mut bytes: [u8; 16] = [0u8;16];
        let mut i: usize = 0;
        while i < 16
            invariant
                i <= 16,
                bytes@.len() == 16,
                forall|k: int| 0 <= k < i ==> bytes@[k] == padded_name(name@)[k],
                forall|k: int| i <= k < 16 ==> bytes@[k] == 0,
            decreases 16 - i,
        {
            if i < name.len() {
                bytes[i] = name[i];
            }
            i += 1;
        }
        assert(bytes@ =~= padded_name(name@));
        Symbol { bytes }
    }

    pub fn as_bytes(&self) -> (r: &[u8; 16])
        ensures
            r@ == self@,
    {
        &self.bytes
    }
}

/// One executed trade, normalized across venues.
#[derive(Clone, Copy, Debug, PartialEq, Eq)]
pub struct NormalizedTrade {
    pub price: Price,
    pub qty: Qty,
    pub ts_exchange_ns: u64,
    pub ts_recv_ns: u64,
    pub symbol: Symbol,
    pub exchange: Exchange,
    pub taker_side: TakerSide,
    /// Which trade this is of those that the adapter has emitted for this symbol
    /// and venue, counted from 0: for gap detection and replay order. Not the
    /// exchange's own trade id.
    pub sequence: u64,
}

/// Why a message of a venue is refused.
#[derive(Debug)]
pub enum IngestError {
    /// Not a decimal number in the accepted form: the text, trimmed.
    BadDecimal(String),
    /// Not the JSON that the venue documents.
    Json(serde_json::Error),
}

/// Where the integer part of a decimal ends: at its first point, or at its end.
pub open spec fn point(t: Seq<char>) -> int {
    match t.index_of_first('.') {
        Some(i) => i,
        None => t.len() as int,
    }
}

/// The text behind the first point, if there is one.
pub open spec fn fraction(t: Seq<char>) -> Seq<char> {
    if point(t) < t.len() {
        t.skip(point(t) + 1)
    } else {
        Seq::empty()
    }
}

/// A fraction of at most eight characters, filled up to eight with zeros.
pub open spec fn padded_fraction(f: Seq<char>) -> Seq<char> {
    f + Seq::new((8 - f.len()) as nat, |i: int| '0')
}

/// The units of 1e-8 that a trimmed decimal stands for: its integer part, with
/// an optional plus sign, and its fraction of at most eight digits. None where
/// it is not such a decimal, or has a minus sign.
pub open spec fn units(t: Seq<char>) -> Option<nat> {
    if t.len() == 0 || t[0] == '-' || fraction(t).len() > 8 {
        None
    } else {
        match unsigned(t.take(point(t))) {
            None => None,
            Some(whole) => if fraction(t).len() == 0 {
                Some(whole * SCALE as nat)
            } else if is_digits(fraction(t)) {
                Some(whole * SCALE as nat + digits_value(padded_fraction(fraction(t))))
            } else {
                None
            },
        }
    }
}

/// The units of 1e-8 of a decimal text that fit, white space around it aside.
#[verifier::opaque]
pub open spec fn fixed8(s: Seq<char>) -> Option<u64> {
    match units(trim(s)) {
        Some(n) if n <= u64::MAX => Some(n as u64),
        _ => None,
    }
}

/// Where the first point of a text stands, or its length.
fn find_point(chars: &Vec<char>) -> (r: usize)
    ensures
        r == point(chars@),
        r <= chars@.len(),
{
    let mut i: usize = 0;
    while i < chars.len() && chars[i] != '.'
        invariant
            i <= chars@.len(),
            forall|k: int| 0 <= k < i ==> chars@[k] != '.',
        decreases chars.len() - i,
    {
        i += 1;
    }
    proof {
        chars@.index_of_first_ensures('.');
        if i < chars@.len() {
            assert(chars@[i as int] == '.');
            assert(chars@.contains('.'));
        }
    }
    i
}

/// The units of a trimmed decimal, where they fit.
fn units_of(chars: &Vec<char>) -> (r: Option<u64>)
    ensures
        r == (match units(chars@) {
            Some(n) if n <= u64::MAX => Some(n as u64),
            _ => None,
        }),
{
    if chars.len() == 0 || chars[0] == '-' {
        return None;
    }
    let dot: usize = find_point(chars);
    let start: usize = if dot < chars.len() {
        dot + 1
    } else {
        dot
    };
    let ghost f = fraction(chars@);
    assert(f =~= chars@.skip(start as int));
    if chars.len() - start > 8 {
        return None;
    }
    assert(chars@.subrange(0, dot as int) =~= chars@.take(dot as int));
    let whole: u64 = match unsigned_between(chars, 0, dot) {
        Some(n) => n,
        None => {
            proof {
                if let Some(n) = unsigned(chars@.take(dot as int)) {
                    assert(n * SCALE >= n) by (nonlinear_arith);
                }
            }
            return None;
        },
    };
    let scaled: u64 = match whole.checked_mul(SCALE) {
        Some(n) => n,
        None => {
            return None;
        },
    };
    if start == chars.len() {
        return Some(scaled);
    }
    let mut padded: Vec<char> = Vec::new();
    let mut i: usize = 0;
    let len: usize = chars.len() - start;
    while i < 8
        invariant
            i <= 8,
            len <= 8,
            start + len == chars.len(),
            f == chars@.skip(start as int),
            padded@ =~= padded_fraction(f).take(i as int),
        decreases 8 - i,
    {
        if i < len {
            padded.push(chars[start + i]);
        } else {
            padded.push('0');
        }
        i += 1;
    }
    assert(padded@ =~= padded_fraction(f));
    assert(padded@.subrange(0, 8) =~= padded@);
    proof {
        // Zeros are digits: the filled up fraction is all digits if it was.
        assert forall|k: int| 0 <= k < f.len() implies padded@[k] == #[trigger] f[k] by {}
        if is_digits(padded@) {
            assert forall|k: int| 0 <= k < f.len() implies is_digit(#[trigger] f[k]) by {
                assert(is_digit(padded@[k]));
            }
        }
    }
    let part: u64 = match digits_between(&padded, 0, 8) {
        Some(n) => n,
        None => {
            return None;
        },
    };
    scaled.checked_add(part)
}

/// Parses an exchange decimal such as `"16578.50"` into units of 1e-8, exactly:
/// integer arithmetic on its digits, never through binary floating point. More
/// than eight decimals are refused, since truncating would lose precision.
pub fn parse_fixed8(s: &str) -> (r: Result<u64, IngestError>)
    ensures
        match r {
            Ok(n) => fixed8(s@) == Some(n),
            Err(IngestError::BadDecimal(t)) => fixed8(s@) is None && t@ == trim(s@),
            Err(_) => false,
        },
{
    reveal(fixed8);
    let t: String = trimmed(s);
    let chars: Vec<char> = chars_of(t.as_str());
    match units_of(&chars) {
        Some(n) => Ok(n),
        None => Err(IngestError::BadDecimal(t)),
    }
}

/// A price from its decimal text.
pub fn parse_price(s: &str) -> (r: Result<Price, IngestError>)
    ensures
        match r {
            Ok(p) => fixed8(s@) == Some(p.raw),
            Err(IngestError::BadDecimal(t)) => fixed8(s@) is None && t@ == trim(s@),
            Err(_) => false,
        },
{
    match parse_fixed8(s) {
        Ok(raw) => Ok(Price::new(raw)),
        Err(e) => Err(e),
    }
}

/// A quantity from its decimal text.
pub fn parse_qty(s: &str) -> (r: Result<Qty, IngestError>)
    ensures
        match r {
            Ok(q) => fixed8(s@) == Some(q.raw),
            Err(IngestError::BadDecimal(t)) => fixed8(s@) is None && t@ == trim(s@),
            Err(_) => false,
        },
{
    match parse_fixed8(s) {
        Ok(raw) => Ok(Qty::new(raw)),
        Err(e) => Err(e),
    }
}

/// The last `width` decimal digits of a number, leading zeros included.
pub open spec fn fixed_digits(n: nat, width: nat) -> Seq<char>
    decreases width,
{
    if width == 0 {
        Seq::empty()
    } else {
        fixed_digits(n / 10, (width - 1) as nat).push(digit_char(n % 10))
    }
}

/// Units of 1e-8 written out with all eight decimals.
pub open spec fn rendered(raw: u64) -> Seq<char> {
    decimal((raw / SCALE) as nat) + seq!['.'] + fixed_digits((raw % SCALE) as nat, 8)
}

pub open spec fn ten_to(width: nat) -> nat
    decreases width,
{
    if width == 0 {
        1
    } else {
        10 * ten_to((width - 1) as nat)
    }
}

proof fn lemma_fixed_digits(n: nat, width: nat)
    requires
        n < ten_to(width),
    ensures
        fixed_digits(n, width).len() == width,
        digits_value(fixed_digits(n, width)) == n,
        forall|i: int| 0 <= i < width ==> is_digit(#[trigger] fixed_digits(n, width)[i]),
    decreases width,
{
    if width > 0 {
        lemma_fixed_digits(n / 10, (width - 1) as nat);
        lemma_digits_value_push(fixed_digits(n / 10, (width - 1) as nat), digit_char(n % 10));
    }
}

/// Any number of units, written out with all eight decimals, parses back to
/// exactly itself.
pub proof fn law_fixed8_round_trips(raw: u64)
    ensures
        fixed8(rendered(raw)) == Some(raw),
{
    reveal(fixed8);
    let s = rendered(raw);
    let whole = decimal((raw / SCALE) as nat);
    let part = fixed_digits((raw % SCALE) as nat, 8);
    lemma_decimal_value((raw / SCALE) as nat);
    assert(ten_to(8) == SCALE) by {
        reveal_with_fuel(ten_to, 9);
    }
    lemma_fixed_digits((raw % SCALE) as nat, 8);
    assert(s[0] == whole[0]);
    assert(is_digit(whole[0]));
    assert(s.last() == part[7]);
    assert(trim(s) == s);
    s.index_of_first_ensures('.');
    assert(s[whole.len() as int] == '.');
    assert(s.contains('.'));
    let p = point(s);
    assert(p == whole.len()) by {
        if p < whole.len() {
            assert(s[p] == whole[p]);
            assert(is_digit(whole[p]));
        }
    }
    assert(s.take(p) =~= whole);
    assert(fraction(s) =~= part);
    assert(padded_fraction(part) =~= part);
    assert(is_digit(part[0]));
    assert(is_digits(part));
    assert(units(s) == Some((raw / SCALE) as nat * SCALE as nat + (raw % SCALE) as nat));
}

/// Zeros behind digits multiply their value by so many tens.
proof fn lemma_zeros_behind(f: Seq<char>, zeros: nat)
    ensures
        digits_value(f + Seq::new(zeros, |i: int| '0')) == digits_value(f) * ten_to(zeros),
    decreases zeros,
{
    let s = f + Seq::new(zeros, |i: int| '0');
    if zeros == 0 {
        assert(s =~= f);
        assert(digits_value(f) * 1 == digits_value(f));
    } else {
        let fewer = (zeros - 1) as nat;
        lemma_zeros_behind(f, fewer);
        let t = f + Seq::new(fewer, |i: int| '0');
        assert(s =~= t.push('0'));
        lemma_digits_value_push(t, '0');
        assert(digits_value(f) * ten_to(fewer) * 10 == digits_value(f) * (10 * ten_to(fewer)))
            by (nonlinear_arith);
    }
}

/// A decimal has its value, in units of 1e-8: the digits before the point count
/// a hundred million each, and those behind it, at most eight, as many tens as
/// they lack to eight. What does not fit is refused. A point with nothing behind
/// it, or no point at all, is the whole number.
pub proof fn law_a_decimal_has_its_value(whole: Seq<char>, part: Seq<char>)
    requires
        is_digits(whole),
        part.len() <= 8,
        forall|i: int| 0 <= i < part.len() ==> is_digit(#[trigger] part[i]),
    ensures
        ({
            let n = digits_value(whole) * 100_000_000 + digits_value(part) * ten_to(
                (8 - part.len()) as nat,
            );
            let m = digits_value(whole) * 100_000_000;
            &&& n <= u64::MAX ==> fixed8(whole + seq!['.'] + part) == Some(n as u64)
            &&& n > u64::MAX ==> fixed8(whole + seq!['.'] + part) is None
            &&& m <= u64::MAX ==> fixed8(whole) == Some(m as u64)
            &&& m > u64::MAX ==> fixed8(whole) is None
        }),
{
    reveal(fixed8);
    let s = whole + seq!['.'] + part;
    assert(is_digit(whole[0]) && is_digit(whole[whole.len() - 1]));
    assert(s[0] == whole[0]);
    assert(trim(s) == s) by {
        if part.len() > 0 {
            assert(s.last() == part[part.len() - 1]);
            assert(is_digit(part[part.len() - 1]));
        } else {
            assert(s.last() == '.');
        }
    }
    s.index_of_first_ensures('.');
    assert(s[whole.len() as int] == '.');
    let p = point(s);
    assert(p == whole.len()) by {
        if p < whole.len() {
            assert(s[p] == whole[p]);
            assert(is_digit(whole[p]));
        }
    }
    assert(s.take(p) =~= whole);
    assert(fraction(s) =~= part);
    lemma_zeros_behind(part, (8 - part.len()) as nat);
    assert(trim(whole) == whole);
    whole.index_of_first_ensures('.');
    assert(point(whole) == whole.len()) by {
        if whole.contains('.') {
            let i = choose|i: int| 0 <= i < whole.len() && whole[i] == '.';
            assert(is_digit(whole[i]));
        }
    }
    assert(whole.take(whole.len() as int) =~= whole);
    if part.len() == 0 {
        assert(digits_value(part) * ten_to(8) == 0) by (nonlinear_arith)
            requires
                digits_value(part) == 0,
        ;
    }
}

/// A text is no decimal if, without the blanks around it, it is empty, starts
/// with a minus sign, has more than eight characters behind a point, has a
/// second point, or has any other character but digits and a plus sign in front.
pub proof fn law_no_decimals(s: Seq<char>, i: int, j: int)
    requires
        trim(s).len() > 0 ==> 0 <= i < trim(s).len() && 0 <= j < trim(s).len(),
        ({
            let t = trim(s);
            ||| t.len() == 0
            ||| t[0] == '-'
            ||| t[i] == '.' && t.len() - i - 1 > 8
            ||| i < j && t[i] == '.' && t[j] == '.'
            ||| !('0' <= t[i] && t[i] <= '9') && t[i] != '.' && !(i == 0 && t[i] == '+')
        }),
    ensures
        fixed8(s) is None,
{
    reveal(fixed8);
    let t = trim(s);
    if t.len() > 0 {
        t.index_of_first_ensures('.');
        let p = point(t);
        if units(t) is Some {
            assert(t.contains(t[i]) && t.contains(t[j]));
            let head = t.take(p);
            let digits = if head.len() > 0 && head[0] == '+' {
                head.drop_first()
            } else {
                head
            };
            assert(is_digits(digits));
            assert forall|k: int| 0 <= k < p implies is_digit(#[trigger] t[k]) || k == 0 && t[k]
                == '+' by {
                assert(head[k] == t[k]);
                if head[0] == '+' {
                    if k > 0 {
                        assert(digits[k - 1] == head[k]);
                        assert(is_digit(digits[k - 1]));
                    }
                } else {
                    assert(is_digit(digits[k]));
                }
            }
            let f = fraction(t);
            assert forall|k: int| p < k < t.len() implies is_digit(#[trigger] t[k]) by {
                assert(f[k - p - 1] == t[k]);
                assert(is_digit(f[k - p - 1]));
            }
        }
    }
}

} // verus!
