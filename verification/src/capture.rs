//! Bit-stable capture and replay of normalized trades: a plain field-by-field
//! encoding without framing. Discriminants are validated before an enum is
//! made of them, and a truncated trailing record is an error, not a silent
//! stop.

use crate::text::{decimal, decimal_text};
use crate::trade::{Exchange, NormalizedTrade, Price, Qty, Symbol, TakerSide};
use vstd::prelude::*;
use vstd::string::*;

verus! {

/// The bytes of one record: price, quantity, exchange timestamp, receive
/// timestamp, eight each; symbol, sixteen; exchange, one; taker side, one;
/// sequence, eight.
pub const RECORD_SIZE: usize = 58;

/// Why a capture file cannot be read on.
#[derive(Clone, Copy, Debug, PartialEq, Eq, Structural)]
pub enum CaptureError {
    /// The file ends inside a record, `got` bytes into it.
    Truncated { got: usize },
    /// No exchange has this discriminant.
    BadExchange(u8),
    /// No taker side has this discriminant.
    BadTakerSide(u8),
}

pub open spec fn capture_error_text(e: CaptureError) -> Seq<char> {
    match e {
        CaptureError::Truncated { got } => "capture file truncated mid-record: got "@ + decimal(
            got as nat,
        ) + " of "@ + decimal(RECORD_SIZE as nat) + " bytes"@,
        CaptureError::BadExchange(b) => "corrupt capture record: exchange discriminant "@ + decimal(
            b as nat,
        ) + " is out of range"@,
        CaptureError::BadTakerSide(b) => "corrupt capture record: taker_side discriminant "@
            + decimal(b as nat) + " is out of range"@,
    }
}

impl CaptureError {
    pub fn message(&self) -> (r: String)
        ensures
            r@ == capture_error_text(*self),
    {
        match self {
            CaptureError::Truncated { got } => {
                let head: String = "capture file truncated mid-record: got ".to_owned();
                let text: String = head.concat(decimal_text(*got as u64).as_str()).concat(" of ");
                text.concat(decimal_text(RECORD_SIZE as u64).as_str()).concat(" bytes")
            },
            CaptureError::BadExchange(b) => {
                let head: String = "corrupt capture record: exchange discriminant ".to_owned();
                head.concat(decimal_text(*b as u64).as_str()).concat(" is out of range")
            },
            CaptureError::BadTakerSide(b) => {
                let head: String = "corrupt capture record: taker_side discriminant ".to_owned();
                head.concat(decimal_text(*b as u64).as_str()).concat(" is out of range")
            },
        }
    }
}

/// The `width` lowest bytes of a number, lowest first.
pub open spec fn le_bytes(n: nat, width: nat) -> Seq<u8>
    decreases width,
{
    if width == 0 {
        Seq::empty()
    } else {
        seq![(n % 256) as u8] + le_bytes(n / 256, (width - 1) as nat)
    }
}

/// The number whose bytes these are, lowest first.
pub open spec fn le_value(s: Seq<u8>) -> nat
    decreases s.len(),
{
    if s.len() == 0 {
        0
    } else {
        s[0] as nat + 256 * le_value(s.drop_first())
    }
}

pub open spec fn exchange_byte(e: Exchange) -> u8 {
    match e {
        Exchange::Binance => 0,
        Exchange::Bybit => 1,
        Exchange::Hyperliquid => 2,
    }
}

pub open spec fn side_byte(t: TakerSide) -> u8 {
    match t {
        TakerSide::Buy => 0,
        TakerSide::Sell => 1,
    }
}

/// A trade as one record.
pub open spec fn record_bytes(t: NormalizedTrade) -> Seq<u8> {
    le_bytes(t.price.raw as nat, 8) + le_bytes(t.qty.raw as nat, 8) + le_bytes(
        t.ts_exchange_ns as nat,
        8,
    ) + le_bytes(t.ts_recv_ns as nat, 8) + t.symbol@ + seq![exchange_byte(t.exchange)] + seq![
        side_byte(t.taker_side),
    ] + le_bytes(t.sequence as nat, 8)
}

/// The discriminant that makes a record unreadable, the exchange's first.
pub open spec fn record_error(b: Seq<u8>) -> Option<CaptureError> {
    if b[48] > 2 {
        Some(CaptureError::BadExchange(b[48]))
    } else if b[49] > 1 {
        Some(CaptureError::BadTakerSide(b[49]))
    } else {
        None
    }
}

/// Whether a trade is what a record's bytes hold.
pub open spec fn is_record_of(t: NormalizedTrade, b: Seq<u8>) -> bool {
    &&& t.price.raw == le_value(b.subrange(0, 8))
    &&& t.qty.raw == le_value(b.subrange(8, 16))
    &&& t.ts_exchange_ns == le_value(b.subrange(16, 24))
    &&& t.ts_recv_ns == le_value(b.subrange(24, 32))
    &&& t.symbol@ == b.subrange(32, 48)
    &&& exchange_byte(t.exchange) == b[48]
    &&& side_byte(t.taker_side) == b[49]
    &&& t.sequence == le_value(b.subrange(50, 58))
}

/// The records of a tape, one after the other.
pub open spec fn tape_bytes(trades: Seq<NormalizedTrade>) -> Seq<u8>
    decreases trades.len(),
{
    if trades.len() == 0 {
        Seq::empty()
    } else {
        tape_bytes(trades.drop_last()) + record_bytes(trades.last())
    }
}

/// The bytes of the `i`-th record of a tape.
pub open spec fn record_at(bytes: Seq<u8>, i: int) -> Seq<u8> {
    bytes.subrange(i * RECORD_SIZE, (i + 1) * RECORD_SIZE)
}

/// How many complete records a tape holds.
pub open spec fn record_count(bytes: Seq<u8>) -> int {
    bytes.len() as int / RECORD_SIZE as int
}

/// Whether the first `n` records of a tape are readable.
pub open spec fn readable_up_to(bytes: Seq<u8>, n: int) -> bool {
    forall|i: int| 0 <= i < n ==> record_error(#[trigger] record_at(bytes, i)) is None
}

/// What stops the reading of a tape, if anything does: the first unreadable
/// record, or else bytes left over behind the last complete one.
pub open spec fn tape_error(bytes: Seq<u8>, e: CaptureError) -> bool {
    ||| exists|n: int|
        0 <= n < record_count(bytes) && readable_up_to(bytes, n) && record_error(
            #[trigger] record_at(bytes, n),
        ) == Some(e)
    ||| readable_up_to(bytes, record_count(bytes)) && bytes.len() % RECORD_SIZE as nat != 0 && e
        == (CaptureError::Truncated { got: (bytes.len() % RECORD_SIZE as nat) as usize })
}

proof fn lemma_le_bytes(n: nat, width: nat)
    requires
        n < byte_range(width),
    ensures
        le_bytes(n, width).len() == width,
        le_value(le_bytes(n, width)) == n,
    decreases width,
{
    if width > 0 {
        lemma_le_bytes(n / 256, (width - 1) as nat);
        assert(le_bytes(n, width).drop_first() =~= le_bytes(n / 256, (width - 1) as nat));
    }
}

proof fn lemma_le_value_bound(s: Seq<u8>)
    ensures
        le_value(s) < byte_range(s.len()),
    decreases s.len(),
{
    if s.len() > 0 {
        lemma_le_value_bound(s.drop_first());
    }
}

pub open spec fn byte_range(width: nat) -> nat
    decreases width,
{
    if width == 0 {
        1
    } else {
        256 * byte_range((width - 1) as nat)
    }
}

proof fn lemma_u64_range()
    ensures
        byte_range(8) == 0x1_0000_0000_0000_0000,
{
    reveal_with_fuel(byte_range, 9);
}

/// Appends a number's eight bytes, lowest first.
fn push_le(out: &mut Vec<u8>, n: u64)
    ensures
        final(out)@ == old(out)@ + le_bytes(n as nat, 8),
{
    let mut rest: u64 = n;
    let mut i: usize = 0;
    let ghost start = out@;
    while i < 8
        invariant
            i <= 8,
            start + le_bytes(n as nat, 8) =~= out@ + le_bytes(rest as nat, (8 - i) as nat),
        decreases 8 - i,
    {
        out.push((rest % 256) as u8);
        assert(le_bytes(rest as nat, (8 - i) as nat) == seq![(rest % 256) as u8] + le_bytes(
            rest as nat / 256,
            (7 - i) as nat,
        ));
        rest = rest / 256;
        i += 1;
    }
}

/// The number whose eight bytes start at `at`.
fn read_le(bytes: &Vec<u8>, at: usize) -> (r: u64)
    requires
        at + 8 <= bytes@.len(),
    ensures
        r == le_value(bytes@.subrange(at as int, at + 8)),
{
    let mut n: u64 = 0;
    let mut i: usize = 8;
    let ghost s = bytes@.subrange(at as int, at + 8);
    proof {
        lemma_u64_range();
    }
    assert(s.skip(8) =~= Seq::<u8>::empty());
    while i > 0
        invariant
            i <= 8,
            at + 8 <= bytes.len(),
            s == bytes@.subrange(at as int, at + 8),
            n == le_value(s.skip(i as int)),
        decreases i,
    {
        i -= 1;
        proof {
            let tail = s.skip(i as int);
            lemma_le_value_bound(tail);
            lemma_u64_range();
            lemma_byte_range_monotone(tail.len(), 8);
            assert(tail.drop_first() =~= s.skip(i + 1));
            assert(tail[0] == s[i as int]);
        }
        n = bytes[at + i] as u64 + 256 * n;
    }
    assert(s.skip(0) =~= s);
    n
}

proof fn lemma_byte_range_monotone(a: nat, b: nat)
    requires
        a <= b,
    ensures
        byte_range(a) <= byte_range(b),
    decreases b,
{
    if a < b {
        lemma_byte_range_monotone(a, (b - 1) as nat);
    }
}

/// A trade as one record.
pub fn encode_record(trade: &NormalizedTrade) -> (r: Vec<u8>)
    ensures
        r@ == record_bytes(*trade),
        r@.len() == RECORD_SIZE,
{
    let mut out: Vec<u8> = Vec::new();
    push_le(&mut out, trade.price.raw());
    push_le(&mut out, trade.qty.raw());
    push_le(&mut out, trade.ts_exchange_ns);
    push_le(&mut out, trade.ts_recv_ns);
    let name: &[u8; 16] = trade.symbol.as_bytes();
    let mut i: usize = 0;
    let ghost before = out@;
    while i < 16
        invariant
            i <= 16,
            name@.len() == 16,
            out@ =~= before + name@.take(i as int),
        decreases 16 - i,
    {
        out.push(name[i]);
        i += 1;
    }
    assert(name@.take(16) =~= name@);
    out.push(
        match trade.exchange {
            Exchange::Binance => 0u8,
            Exchange::Bybit => 1u8,
            Exchange::Hyperliquid => 2u8,
        },
    );
    out.push(
        match trade.taker_side {
            TakerSide::Buy => 0u8,
            TakerSide::Sell => 1u8,
        },
    );
    push_le(&mut out, trade.sequence);
    proof {
        lemma_u64_range();
        lemma_le_bytes(trade.price.raw as nat, 8);
        lemma_le_bytes(trade.qty.raw as nat, 8);
        lemma_le_bytes(trade.ts_exchange_ns as nat, 8);
        lemma_le_bytes(trade.ts_recv_ns as nat, 8);
        lemma_le_bytes(trade.sequence as nat, 8);
        assert(out@ =~= record_bytes(*trade));
    }
    out
}

pub fn exchange_from_u8(b: u8) -> (r: Result<Exchange, CaptureError>)
    ensures
        match r {
            Ok(e) => exchange_byte(e) == b,
            Err(e) => b > 2 && e == CaptureError::BadExchange(b),
        },
{
    match b {
        0 => Ok(Exchange::Binance),
        1 => Ok(Exchange::Bybit),
        2 => Ok(Exchange::Hyperliquid),
        _ => Err(CaptureError::BadExchange(b)),
    }
}

pub fn taker_side_from_u8(b: u8) -> (r: Result<TakerSide, CaptureError>)
    ensures
        match r {
            Ok(t) => side_byte(t) == b,
            Err(e) => b > 1 && e == CaptureError::BadTakerSide(b),
        },
{
    match b {
        0 => Ok(TakerSide::Buy),
        1 => Ok(TakerSide::Sell),
        _ => Err(CaptureError::BadTakerSide(b)),
    }
}

/// The trade in one record.
pub fn decode_record(bytes: &Vec<u8>) -> (r: Result<NormalizedTrade, CaptureError>)
    requires
        bytes@.len() == RECORD_SIZE,
    ensures
        match r {
            Ok(t) => record_error(bytes@) is None && is_record_of(t, bytes@),
            Err(e) => record_error(bytes@) == Some(e),
        },
{
    let exchange: Exchange = match exchange_from_u8(bytes[48]) {
        Ok(e) => e,
        Err(e) => {
            return Err(e);
        },
    };
    let taker_side: TakerSide = match taker_side_from_u8(bytes[49]) {
        Ok(t) => t,
        Err(e) => {
            return Err(e);
        },
    };
    let mut name: [u8; 16] = [0u8;16];
    let mut i: usize = 0;
    while i < 16
        invariant
            i <= 16,
            bytes@.len() == RECORD_SIZE,
            name@.len() == 16,
            forall|k: int| 0 <= k < i ==> name@[k] == bytes@[32 + k],
        decreases 16 - i,
    {
        name[i] = bytes[32 + i];
        i += 1;
    }
    assert(name@ =~= bytes@.subrange(32, 48));
    Ok(
        NormalizedTrade {
            price: Price::new(read_le(bytes, 0)),
            qty: Qty::new(read_le(bytes, 8)),
            ts_exchange_ns: read_le(bytes, 16),
            ts_recv_ns: read_le(bytes, 24),
            symbol: Symbol { bytes: name },
            exchange,
            taker_side,
            sequence: read_le(bytes, 50),
        },
    )
}

/// What came of one attempt to read from a capture file.
pub enum ReadEvent {
    /// These bytes came; none at all at the end of the file.
    Got(Vec<u8>),
    /// The read was interrupted before anything came.
    Interrupted,
    /// The read failed otherwise.
    Failed,
}

/// What to do next.
pub enum ReadAction {
    /// Read again, at most as many bytes as the record still lacks.
    ReadMore,
    /// Nothing is left: the tape ended behind a complete record.
    End,
    /// Hand the read failure on.
    Fail,
    /// Hand this record, or what is wrong with it, on.
    Yield(Result<NormalizedTrade, CaptureError>),
}

/// Puts one record together from however many reads it takes.
pub struct RecordAssembler {
    buf: Vec<u8>,
}

impl View for RecordAssembler {
    type V = Seq<u8>;

    closed spec fn view(&self) -> Seq<u8> {
        self.buf@
    }
}

impl RecordAssembler {
    pub fn new() -> (r: Self)
        ensures
            r@ == Seq::<u8>::empty(),
    {
        RecordAssembler { buf: Vec::new() }
    }

    /// How many bytes the record still lacks.
    pub fn missing(&self) -> (r: usize)
        requires
            self@.len() < RECORD_SIZE,
        ensures
            r == RECORD_SIZE - self@.len(),
            r >= 1,
    {
        RECORD_SIZE - self.buf.len()
    }

    /// Takes in what a read brought. A record is handed on once it is
    /// complete; the end of the file is clean only between records; a failed
    /// read gives the bytes so far up.
    pub fn step(&mut self, event: ReadEvent) -> (r: ReadAction)
        requires
            old(self)@.len() < RECORD_SIZE,
            event matches ReadEvent::Got(bytes) ==> old(self)@.len() + bytes@.len() <= RECORD_SIZE,
        ensures
            final(self)@.len() < RECORD_SIZE,
            match event {
                ReadEvent::Interrupted => r is ReadMore && final(self)@ == old(self)@,
                ReadEvent::Failed => r is Fail && final(self)@ == Seq::<u8>::empty(),
                ReadEvent::Got(bytes) => {
                    let all = old(self)@ + bytes@;
                    if bytes@.len() == 0 && all.len() == 0 {
                        r is End && final(self)@ == all
                    } else if bytes@.len() == 0 {
                        &&& r matches ReadAction::Yield(Err(e))
                        &&& e == (CaptureError::Truncated { got: all.len() as usize })
                        &&& final(self)@ == Seq::<u8>::empty()
                    } else if all.len() < RECORD_SIZE {
                        r is ReadMore && final(self)@ == all
                    } else {
                        &&& final(self)@ == Seq::<u8>::empty()
                        &&& match r {
                            ReadAction::Yield(Ok(t)) => record_error(all) is None && is_record_of(
                                t,
                                all,
                            ),
                            ReadAction::Yield(Err(e)) => record_error(all) == Some(e),
                            _ => false,
                        }
                    }
                },
            },
    {
        match event {
            ReadEvent::Interrupted => ReadAction::ReadMore,
            ReadEvent::Failed => {
                self.buf = Vec::new();
                ReadAction::Fail
            },
            ReadEvent::Got(bytes) => {
                if bytes.len() == 0 {
                    let got: usize = self.buf.len();
                    if got == 0 {
                        assert(self@ =~= old(self)@ + bytes@);
                        return ReadAction::End;
                    }
                    self.buf = Vec::new();
                    return ReadAction::Yield(Err(CaptureError::Truncated { got }));
                }
                let mut more: Vec<u8> = bytes;
                self.buf.append(&mut more);
                if self.buf.len() < RECORD_SIZE {
                    return ReadAction::ReadMore;
                }
                let record: Result<NormalizedTrade, CaptureError> = decode_record(&self.buf);
                self.buf = Vec::new();
                ReadAction::Yield(record)
            },
        }
    }
}

/// A whole session as one tape.
pub fn encode_tape(trades: &Vec<NormalizedTrade>) -> (r: Vec<u8>)
    ensures
        r@ == tape_bytes(trades@),
{
    let mut out: Vec<u8> = Vec::new();
    let mut i: usize = 0;
    while i < trades.len()
        invariant
            i <= trades@.len(),
            out@ == tape_bytes(trades@.take(i as int)),
        decreases trades.len() - i,
    {
        let mut record: Vec<u8> = encode_record(&trades[i]);
        assert(trades@.take(i + 1).drop_last() =~= trades@.take(i as int));
        out.append(&mut record);
        i += 1;
    }
    assert(trades@.take(i as int) =~= trades@);
    out
}

/// All trades of a tape, or the first thing that stops the reading.
pub fn decode_tape(bytes: &Vec<u8>) -> (r: Result<Vec<NormalizedTrade>, CaptureError>)
    ensures
        match r {
            Ok(trades) => {
                &&& bytes@.len() == trades@.len() * RECORD_SIZE
                &&& readable_up_to(bytes@, trades@.len() as int)
                &&& forall|i: int|
                    0 <= i < trades@.len() ==> is_record_of(
                        trades@[i],
                        #[trigger] record_at(bytes@, i),
                    )
            },
            Err(e) => tape_error(bytes@, e),
        },
{
    let mut trades: Vec<NormalizedTrade> = Vec::new();
    let mut at: usize = 0;
    while bytes.len() - at >= RECORD_SIZE
        invariant
            at <= bytes@.len(),
            at == trades@.len() * RECORD_SIZE,
            readable_up_to(bytes@, trades@.len() as int),
            forall|i: int|
                0 <= i < trades@.len() ==> is_record_of(trades@[i], #[trigger] record_at(bytes@, i)),
        decreases bytes.len() - at,
    {
        let ghost n = trades@.len() as int;
        let mut record: Vec<u8> = Vec::new();
        let mut k: usize = 0;
        while k < RECORD_SIZE
            invariant
                k <= RECORD_SIZE,
                at + RECORD_SIZE <= bytes.len(),
                record@ =~= bytes@.subrange(at as int, at + k),
            decreases RECORD_SIZE - k,
        {
            record.push(bytes[at + k]);
            k += 1;
        }
        assert(record@ =~= record_at(bytes@, n));
        match decode_record(&record) {
            Ok(t) => {
                trades.push(t);
            },
            Err(e) => {
                assert(n < record_count(bytes@));
                assert(record_error(record_at(bytes@, n)) == Some(e));
                return Err(e);
            },
        }
        at += RECORD_SIZE;
    }
    if at < bytes.len() {
        let got: usize = bytes.len() - at;
        assert(record_count(bytes@) == trades@.len() && bytes@.len() % RECORD_SIZE as nat == got);
        return Err(CaptureError::Truncated { got });
    }
    Ok(trades)
}

proof fn lemma_tape_bytes(trades: Seq<NormalizedTrade>)
    ensures
        tape_bytes(trades).len() == trades.len() * RECORD_SIZE,
        forall|i: int|
            0 <= i < trades.len() ==> #[trigger] record_at(tape_bytes(trades), i) == record_bytes(
                trades[i],
            ),
    decreases trades.len(),
{
    if trades.len() > 0 {
        let init = trades.drop_last();
        let bytes = tape_bytes(trades);
        lemma_tape_bytes(init);
        law_record_round_trips(trades.last(), trades.last());
        assert forall|i: int| 0 <= i < trades.len() implies #[trigger] record_at(bytes, i)
            == record_bytes(trades[i]) by {
            if i < init.len() {
                assert(record_at(bytes, i) =~= record_at(tape_bytes(init), i));
            } else {
                assert(record_at(bytes, i) =~= record_bytes(trades.last()));
            }
        }
    }
}

/// Replay determinism: a recorded session, read back, yields exactly the
/// trades that were recorded, in their order, and nothing stops the reading.
pub proof fn law_tape_round_trips(trades: Seq<NormalizedTrade>)
    ensures
        tape_bytes(trades).len() == trades.len() * RECORD_SIZE,
        readable_up_to(tape_bytes(trades), trades.len() as int),
        forall|e: CaptureError| !tape_error(tape_bytes(trades), e),
        forall|i: int, u: NormalizedTrade|
            0 <= i < trades.len() ==> (#[trigger] is_record_of(u, record_at(tape_bytes(trades), i))
                <==> u == trades[i]),
{
    let bytes = tape_bytes(trades);
    lemma_tape_bytes(trades);
    assert forall|i: int| 0 <= i < trades.len() implies record_error(
        #[trigger] record_at(bytes, i),
    ) is None by {
        law_record_round_trips(trades[i], trades[i]);
    }
    assert forall|i: int, u: NormalizedTrade|
        0 <= i < trades.len() implies (#[trigger] is_record_of(u, record_at(bytes, i)) <==> u
        == trades[i]) by {
        law_record_round_trips(trades[i], u);
    }
    assert(record_count(bytes) == trades.len());
}

/// A tape cut off inside its last record is refused with the number of bytes
/// that are left of that record, and with nothing else.
pub proof fn law_truncation_is_surfaced(trades: Seq<NormalizedTrade>, cut: int, e: CaptureError)
    requires
        trades.len() > 0,
        0 < cut < RECORD_SIZE,
    ensures
        tape_error(tape_bytes(trades).take(tape_bytes(trades).len() - cut), e) <==> e == (
        CaptureError::Truncated { got: (RECORD_SIZE - cut) as usize }),
{
    let whole = tape_bytes(trades);
    let bytes = whole.take(whole.len() - cut);
    lemma_tape_bytes(trades);
    let n = (trades.len() - 1) as int;
    assert(record_count(bytes) == n && bytes.len() % RECORD_SIZE as nat == RECORD_SIZE - cut);
    assert forall|i: int| 0 <= i < n implies record_error(#[trigger] record_at(bytes, i)) is None by {
        assert(record_at(bytes, i) =~= record_at(whole, i));
        law_record_round_trips(trades[i], trades[i]);
    }
}

/// A record whose exchange or taker side byte stands for nothing is refused,
/// whatever else it holds.
pub proof fn law_corrupt_discriminants_are_refused(t: NormalizedTrade, b: u8)
    ensures
        b > 2 ==> record_error(record_bytes(t).update(48, b)) == Some(CaptureError::BadExchange(b)),
        b > 1 ==> record_error(record_bytes(t).update(49, b)) == Some(
            CaptureError::BadTakerSide(b),
        ),
{
    law_record_round_trips(t, t);
}

/// A record reads back as exactly the trade that was written: nothing in it is
/// refused, and whatever trade its bytes hold is that one.
pub proof fn law_record_round_trips(t: NormalizedTrade, u: NormalizedTrade)
    ensures
        record_bytes(t).len() == RECORD_SIZE,
        record_error(record_bytes(t)) is None,
        is_record_of(t, record_bytes(t)),
        is_record_of(u, record_bytes(t)) ==> u == t,
{
    let b = record_bytes(t);
    lemma_u64_range();
    lemma_le_bytes(t.price.raw as nat, 8);
    lemma_le_bytes(t.qty.raw as nat, 8);
    lemma_le_bytes(t.ts_exchange_ns as nat, 8);
    lemma_le_bytes(t.ts_recv_ns as nat, 8);
    lemma_le_bytes(t.sequence as nat, 8);
    assert(b.subrange(0, 8) =~= le_bytes(t.price.raw as nat, 8));
    assert(b.subrange(8, 16) =~= le_bytes(t.qty.raw as nat, 8));
    assert(b.subrange(16, 24) =~= le_bytes(t.ts_exchange_ns as nat, 8));
    assert(b.subrange(24, 32) =~= le_bytes(t.ts_recv_ns as nat, 8));
    assert(b.subrange(32, 48) =~= t.symbol@);
    assert(b.subrange(50, 58) =~= le_bytes(t.sequence as nat, 8));
    if is_record_of(u, b) {
        assert(u.symbol.bytes =~= t.symbol.bytes);
    }
}

/// Counts what a recording session has written, and says when to flush.
pub struct FlushCounter {
    recorded: u64,
    since_flush: u64,
}

impl FlushCounter {
    /// Trades recorded in all.
    pub closed spec fn recorded(&self) -> nat {
        self.recorded as nat
    }

    /// Trades recorded since the last flush.
    pub closed spec fn waiting(&self) -> nat {
        self.since_flush as nat
    }

    /// No more can wait than have been recorded.
    pub open spec fn wf(&self) -> bool {
        self.waiting() <= self.recorded() <= u64::MAX
    }

    pub fn new() -> (r: Self)
        ensures
            r.wf(),
            r.recorded() == 0,
            r.waiting() == 0,
    {
        FlushCounter { recorded: 0, since_flush: 0 }
    }

    /// Counts a trade, and says whether enough of them wait to be flushed now.
    pub fn on_recorded(&mut self, flush_every: u64) -> (flush: bool)
        requires
            old(self).wf(),
            old(self).recorded() < u64::MAX,
        ensures
            final(self).wf(),
            final(self).recorded() == old(self).recorded() + 1,
            flush == (old(self).waiting() + 1 >= flush_every),
            final(self).waiting() == (if flush { 0 } else { old(self).waiting() + 1 }),
    {
        self.recorded = self.recorded + 1;
        self.since_flush = self.since_flush + 1;
        if self.since_flush >= flush_every {
            self.since_flush = 0;
            true
        } else {
            false
        }
    }

    /// The periodic flush is due: says whether anything waits for it.
    pub fn on_tick(&mut self) -> (flush: bool)
        requires
            old(self).wf(),
        ensures
            final(self).wf(),
            final(self).recorded() == old(self).recorded(),
            final(self).waiting() == 0,
            flush == (old(self).waiting() > 0),
    {
        let flush: bool = self.since_flush > 0;
        self.since_flush = 0;
        flush
    }

    /// Trades recorded in all.
    pub fn total(&self) -> (r: u64)
        ensures
            r == self.recorded(),
    {
        self.recorded
    }
}

} // verus!
