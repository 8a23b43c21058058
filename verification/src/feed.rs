//! What the venues' feeds have in common: prints become normalized trades, and
//! a session reacts to frames.

use crate::text::trim;
use crate::trade::{
    fixed8, parse_price, parse_qty, Exchange, IngestError, NormalizedTrade, Price, Qty, Symbol,
    TakerSide,
};
use vstd::prelude::*;

verus! {

/// Nanoseconds per millisecond.
pub const NANOS_PER_MS: u64 = 1_000_000;

/// One print as a venue sends it: its numbers are still text.
pub struct Print {
    pub time_ms: u64,
    pub side: TakerSide,
    pub price: String,
    pub qty: String,
}

/// What a print says.
pub struct PrintView {
    pub time_ms: u64,
    pub side: TakerSide,
    pub price: Seq<char>,
    pub qty: Seq<char>,
}

impl View for Print {
    type V = PrintView;

    open spec fn view(&self) -> PrintView {
        PrintView {
            time_ms: self.time_ms,
            side: self.side,
            price: self.price@,
            qty: self.qty@,
        }
    }
}

/// What some prints say.
pub open spec fn print_views(ps: Seq<Print>) -> Seq<PrintView> {
    ps.map_values(|p: Print| p@)
}

/// Milliseconds in nanoseconds, at most as many as fit. The venues' clocks
/// give no more than milliseconds: this is a unit, not a precision.
pub open spec fn ms_to_ns(ms: u64) -> u64 {
    if ms * NANOS_PER_MS <= u64::MAX {
        (ms * NANOS_PER_MS) as u64
    } else {
        u64::MAX
    }
}

/// The first of a print's numbers that is none, if one is: the price first.
pub open spec fn bad_decimal(p: PrintView) -> Option<Seq<char>> {
    if fixed8(p.price) is None {
        Some(trim(p.price))
    } else if fixed8(p.qty) is None {
        Some(trim(p.qty))
    } else {
        None
    }
}

/// Whether a trade is what a print says, with its place in the feed. When it
/// was received is another matter.
pub open spec fn is_trade_of(
    t: NormalizedTrade,
    p: PrintView,
    symbol: Symbol,
    exchange: Exchange,
    sequence: int,
) -> bool {
    &&& fixed8(p.price) == Some(t.price.raw)
    &&& fixed8(p.qty) == Some(t.qty.raw)
    &&& t.ts_exchange_ns == ms_to_ns(p.time_ms)
    &&& t.symbol == symbol
    &&& t.exchange == exchange
    &&& t.taker_side == p.side
    &&& t.sequence == sequence
}

/// What a print becomes.
pub open spec fn print_outcome(
    p: PrintView,
    symbol: Symbol,
    exchange: Exchange,
    sequence: int,
    r: Result<NormalizedTrade, IngestError>,
) -> bool {
    match bad_decimal(p) {
        None => r matches Ok(t) && is_trade_of(t, p, symbol, exchange, sequence),
        Some(text) => r matches Err(IngestError::BadDecimal(x)) && x@ == text,
    }
}

/// What the prints of one push become: all of them trades, numbered on; or the
/// error of the first one that is none, and then no trade is emitted and no
/// number used up.
pub open spec fn prints_outcome(
    ps: Seq<PrintView>,
    symbol: Symbol,
    exchange: Exchange,
    from: u64,
    to: u64,
    r: Result<Vec<NormalizedTrade>, IngestError>,
) -> bool {
    match r {
        Ok(ts) => {
            &&& ts@.len() == ps.len()
            &&& to == from + ps.len()
            &&& forall|i: int|
                0 <= i < ps.len() ==> bad_decimal(ps[i]) is None && is_trade_of(
                    #[trigger] ts@[i],
                    ps[i],
                    symbol,
                    exchange,
                    from + i,
                )
        },
        Err(IngestError::BadDecimal(x)) => exists|k: int|
            {
                &&& 0 <= k < ps.len()
                &&& bad_decimal(#[trigger] ps[k]) == Some(x@)
                &&& to == from
                &&& forall|j: int| 0 <= j < k ==> bad_decimal(#[trigger] ps[j]) is None
            },
        Err(_) => false,
    }
}

/// Makes a normalized trade of a print, received when the clock says.
pub fn normalize<C: Fn() -> u64>(
    print: &Print,
    symbol: Symbol,
    exchange: Exchange,
    sequence: u64,
    clock: &C,
) -> (r: Result<NormalizedTrade, IngestError>)
    requires
        call_requires(*clock, ()),
    ensures
        print_outcome(print@, symbol, exchange, sequence as int, r),
        r matches Ok(t) ==> call_ensures(*clock, (), t.ts_recv_ns),
{
    let price: Price = match parse_price(print.price.as_str()) {
        Ok(p) => p,
        Err(e) => {
            return Err(e);
        },
    };
    let qty: Qty = match parse_qty(print.qty.as_str()) {
        Ok(q) => q,
        Err(e) => {
            return Err(e);
        },
    };
    Ok(
        NormalizedTrade {
            price,
            qty,
            ts_exchange_ns: match print.time_ms.checked_mul(NANOS_PER_MS) {
                Some(ns) => ns,
                None => u64::MAX,
            },
            ts_recv_ns: clock(),
            symbol,
            exchange,
            taker_side: print.side,
            sequence,
        },
    )
}

/// Makes normalized trades of all prints of one push, numbering them on.
pub fn normalize_all<C: Fn() -> u64>(
    prints: &Vec<Print>,
    symbol: Symbol,
    exchange: Exchange,
    sequence: &mut u64,
    clock: &C,
) -> (r: Result<Vec<NormalizedTrade>, IngestError>)
    requires
        call_requires(*clock, ()),
        *old(sequence) + prints@.len() <= u64::MAX,
    ensures
        prints_outcome(
            print_views(prints@),
            symbol,
            exchange,
            *old(sequence),
            *final(sequence),
            r,
        ),
        r matches Ok(ts) ==> forall|i: int|
            0 <= i < ts@.len() ==> call_ensures(*clock, (), (#[trigger] ts@[i]).ts_recv_ns),
{
    let mut out: Vec<NormalizedTrade> = Vec::new();
    let ghost ps = print_views(prints@);
    let start: u64 = *sequence;
    let mut i: usize = 0;
    while i < prints.len()
        invariant
            i <= prints@.len(),
            call_requires(*clock, ()),
            ps == print_views(prints@),
            start == *old(sequence),
            start + prints@.len() <= u64::MAX,
            *sequence == start,
            out@.len() == i,
            forall|j: int| 0 <= j < i ==> bad_decimal(#[trigger] ps[j]) is None,
            forall|j: int|
                0 <= j < i ==> is_trade_of(
                    #[trigger] out@[j],
                    ps[j],
                    symbol,
                    exchange,
                    start + j,
                ),
            forall|j: int|
                0 <= j < i ==> call_ensures(*clock, (), (#[trigger] out@[j]).ts_recv_ns),
        decreases prints.len() - i,
    {
        assert(ps[i as int] == prints@[i as int]@);
        match normalize(&prints[i], symbol, exchange, start + i as u64, clock) {
            Ok(t) => {
                out.push(t);
            },
            Err(e) => {
                assert(bad_decimal(ps[i as int]) is Some);
                assert(e matches IngestError::BadDecimal(x) && bad_decimal(ps[i as int]) == Some(
                    x@,
                ));
                return Err(e);
            },
        }
        i += 1;
    }
    *sequence = start + prints.len() as u64;
    Ok(out)
}

/// What happens in a feed's session.
pub enum FeedEvent {
    Text(String),
    Ping(Vec<u8>),
    /// The venue closed the session, or it ended.
    Closed,
    /// The connection failed.
    Failed,
    /// Any other frame.
    Other,
    /// The venue's own keep-alive is due.
    KeepAliveDue,
}

/// What to do about it.
pub enum FeedAction {
    /// Decode the text and hand its trades on.
    Decode(String),
    Pong(Vec<u8>),
    /// Send the venue's own keep-alive.
    KeepAlive,
    Continue,
    /// The session is over; reconnect.
    End,
    /// The session is over with the connection's error; reconnect.
    Fail,
}

/// Decides what a feed's session does next.
pub fn feed_step(event: FeedEvent) -> (r: FeedAction)
    ensures
        r == (match event {
            FeedEvent::Text(text) => FeedAction::Decode(text),
            FeedEvent::Ping(payload) => FeedAction::Pong(payload),
            FeedEvent::Closed => FeedAction::End,
            FeedEvent::Failed => FeedAction::Fail,
            FeedEvent::Other => FeedAction::Continue,
            FeedEvent::KeepAliveDue => FeedAction::KeepAlive,
        }),
{
    match event {
        FeedEvent::Text(text) => FeedAction::Decode(text),
        FeedEvent::Ping(payload) => FeedAction::Pong(payload),
        FeedEvent::Closed => FeedAction::End,
        FeedEvent::Failed => FeedAction::Fail,
        FeedEvent::Other => FeedAction::Continue,
        FeedEvent::KeepAliveDue => FeedAction::KeepAlive,
    }
}

/// A refused push leaves the numbering where it was.
pub proof fn law_a_refused_push_takes_no_number(
    ps: Seq<PrintView>,
    symbol: Symbol,
    exchange: Exchange,
    from: u64,
    to: u64,
    e: IngestError,
)
    requires
        prints_outcome(ps, symbol, exchange, from, to, Err(e)),
    ensures
        to == from,
{
}

/// Across pushes the numbering has neither gaps nor repeats: a push that
/// decodes goes on exactly where the one before it stopped.
pub proof fn law_numbering_is_gap_free(
    ps: Seq<PrintView>,
    qs: Seq<PrintView>,
    symbol: Symbol,
    exchange: Exchange,
    from: u64,
    mid: u64,
    to: u64,
    first: Vec<NormalizedTrade>,
    second: Vec<NormalizedTrade>,
)
    requires
        prints_outcome(ps, symbol, exchange, from, mid, Ok(first)),
        prints_outcome(qs, symbol, exchange, mid, to, Ok(second)),
    ensures
        to == from + first@.len() + second@.len(),
        forall|i: int|
            0 <= i < first@.len() + second@.len() ==> (#[trigger] (first@ + second@)[i]).sequence
                == from + i,
{
    assert forall|i: int| 0 <= i < first@.len() + second@.len() implies (#[trigger] (first@
        + second@)[i]).sequence == from + i by {
        if i < first@.len() {
            assert((first@ + second@)[i] == first@[i]);
        } else {
            assert((first@ + second@)[i] == second@[i - first@.len()]);
        }
    }
}

/// A time in milliseconds is a million times as many nanoseconds, as long as
/// they can be counted, and the last one that can be counted from then on.
pub proof fn law_a_millisecond_has_a_million_nanoseconds(ms: u64)
    ensures
        ms * 1_000_000 <= u64::MAX ==> ms_to_ns(ms) == ms * 1_000_000,
        ms * 1_000_000 > u64::MAX ==> ms_to_ns(ms) == u64::MAX,
{
}

/// A print becomes a trade with the price and the quantity that its texts are
/// read as, its time in nanoseconds, its side, and the symbol, the venue and the
/// number that it is given.
pub proof fn law_a_trade_is_its_print(
    t: NormalizedTrade,
    p: PrintView,
    symbol: Symbol,
    exchange: Exchange,
    sequence: int,
)
    requires
        is_trade_of(t, p, symbol, exchange, sequence),
    ensures
        fixed8(p.price) == Some(t.price.raw),
        fixed8(p.qty) == Some(t.qty.raw),
        p.time_ms * 1_000_000 <= u64::MAX ==> t.ts_exchange_ns == p.time_ms * 1_000_000,
        t.taker_side == p.side,
        t.symbol == symbol,
        t.exchange == exchange,
        t.sequence == sequence,
{
}

} // verus!
