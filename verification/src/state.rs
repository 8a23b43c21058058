//! What a consumer sees when it asks how toxic the flow is right now, and how
//! that changes as messages come in or fail to.

use crate::backoff::{Duration, NANOS_PER_MILLI};
use crate::double::Double;
use crate::protocol::{MessageView, ServerMessage};
use vstd::prelude::*;

verus! {

/// Four states and not an optional number: "no trustworthy reading" is not
/// "no toxicity".
#[derive(Clone, Copy, Debug, PartialEq, Eq, Structural)]
pub enum ToxicityState {
    /// Nothing heard since the last attempt to connect.
    Connecting,
    /// Connected, but the score is still warming up on the server. The count
    /// is 0 where a heartbeat and not a reading said so.
    Warming { trades_in_bucket: u32 },
    /// A reading. The rank has a warmup of its own and may still be missing.
    Live { vpin: Double, vpin_cdf: Option<Double>, trades_in_bucket: u32 },
    /// Neither a reading nor a heartbeat for too long: assume the worst.
    Stale,
}

/// What happens to a subscriber.
pub enum ClientEvent {
    /// It begins to connect.
    Connecting,
    /// A message came.
    Message(ServerMessage),
    /// Something came that is no message.
    Malformed,
    /// The check for silence is due; nothing has come for so long.
    Silence(Duration),
    /// The session is over, cleanly or not.
    Ended,
}

/// What a message makes of a state.
pub open spec fn state_after_message(s: ToxicityState, m: MessageView) -> ToxicityState {
    match m {
        MessageView::Reading { vpin, vpin_cdf, trades_in_bucket, .. } => match vpin {
            Some(v) => ToxicityState::Live { vpin: v, vpin_cdf, trades_in_bucket },
            None => ToxicityState::Warming { trades_in_bucket },
        },
        MessageView::Heartbeat { .. } => match s {
            ToxicityState::Stale | ToxicityState::Connecting => ToxicityState::Warming {
                trades_in_bucket: 0,
            },
            _ => s,
        },
        MessageView::Error { .. } => s,
    }
}

/// What an event makes of a state.
pub open spec fn state_after_event(
    s: ToxicityState,
    e: ClientEvent,
    stale_after: Duration,
) -> ToxicityState {
    match e {
        ClientEvent::Connecting => ToxicityState::Connecting,
        ClientEvent::Message(m) => state_after_message(s, m@),
        ClientEvent::Malformed => s,
        ClientEvent::Silence(elapsed) => if elapsed@ > stale_after@ {
            ToxicityState::Stale
        } else {
            s
        },
        ClientEvent::Ended => ToxicityState::Stale,
    }
}

impl ToxicityState {
    /// Whether there is a score to act on.
    pub fn is_live(&self) -> (r: bool)
        ensures
            r == (*self is Live),
    {
        matches!(self, ToxicityState::Live { .. })
    }

    /// Whether a feed that was there has gone dark. Connecting for the first
    /// time is not that.
    pub fn is_stale(&self) -> (r: bool)
        ensures
            r == (*self is Stale),
    {
        matches!(self, ToxicityState::Stale)
    }

    /// The state after a message. A heartbeat has no score in it, but proves
    /// that the connection is alive: it lifts a silent state and leaves a
    /// reading alone.
    pub fn after_message(self, message: &ServerMessage) -> (r: ToxicityState)
        ensures
            r == state_after_message(self, message@),
    {
        match message {
            ServerMessage::Reading { vpin, vpin_cdf, trades_in_bucket, .. } => match vpin {
                Some(v) => ToxicityState::Live {
                    vpin: *v,
                    vpin_cdf: *vpin_cdf,
                    trades_in_bucket: *trades_in_bucket,
                },
                None => ToxicityState::Warming { trades_in_bucket: *trades_in_bucket },
            },
            ServerMessage::Heartbeat { .. } => match self {
                ToxicityState::Stale | ToxicityState::Connecting => ToxicityState::Warming {
                    trades_in_bucket: 0,
                },
                _ => self,
            },
            ServerMessage::Error { .. } => self,
        }
    }

    /// The state after an event.
    pub fn after(self, event: &ClientEvent, stale_after: Duration) -> (r: ToxicityState)
        ensures
            r == state_after_event(self, *event, stale_after),
    {
        match event {
            ClientEvent::Connecting => ToxicityState::Connecting,
            ClientEvent::Message(m) => self.after_message(m),
            ClientEvent::Malformed => self,
            ClientEvent::Silence(elapsed) => {
                if elapsed.exceeds(&stale_after) {
                    ToxicityState::Stale
                } else {
                    self
                }
            },
            ClientEvent::Ended => ToxicityState::Stale,
        }
    }
}

/// How often to check for silence: twice per threshold, so that going dark is
/// noticed well before another threshold has passed; never in no time at all.
pub fn check_interval(stale_after: Duration) -> (r: Duration)
    ensures
        r@ == (if stale_after@ / 2 <= NANOS_PER_MILLI { NANOS_PER_MILLI as nat } else {
            stale_after@ / 2
        }),
        r@ > 0,
{
    stale_after.half().max(Duration::from_millis(1))
}

/// A heartbeat never downgrades a reading, nor a warmup that a reading told
/// of; and it always ends a silence.
pub proof fn law_heartbeat_keeps_a_reading(s: ToxicityState, ts_ns: u64)
    ensures
        ({
            let after = state_after_message(s, MessageView::Heartbeat { ts_ns });
            &&& (s is Live || s is Warming) ==> after == s
            &&& !(after is Stale) && !(after is Connecting)
        }),
{
}

/// A score is shown only because a reading brought that very score, now or
/// before: silence, heartbeats, errors and garbage never make one up.
pub proof fn law_a_score_comes_from_a_reading(
    s: ToxicityState,
    e: ClientEvent,
    stale_after: Duration,
)
    ensures
        ({
            let after = state_after_event(s, e, stale_after);
            after matches ToxicityState::Live { vpin, vpin_cdf, trades_in_bucket } ==> {
                ||| s == after
                ||| e matches ClientEvent::Message(m) && m@ matches MessageView::Reading {
                    vpin: v,
                    vpin_cdf: c,
                    trades_in_bucket: n,
                    ..
                } && v == Some(vpin) && c == vpin_cdf && n == trades_in_bucket
            }
        }),
{
}

/// Silence beyond the threshold, and the end of a session, are always seen as
/// such, whatever was shown before.
pub proof fn law_silence_is_stale(s: ToxicityState, elapsed: Duration, stale_after: Duration)
    ensures
        elapsed@ > stale_after@ ==> state_after_event(
            s,
            ClientEvent::Silence(elapsed),
            stale_after,
        ) is Stale,
        elapsed@ <= stale_after@ ==> state_after_event(
            s,
            ClientEvent::Silence(elapsed),
            stale_after,
        ) == s,
        state_after_event(s, ClientEvent::Ended, stale_after) is Stale,
{
}

/// Every reading is shown, whatever the state before it: as a score with all
/// that came with it, or as a warmup where it has none. The end of a connection
/// is stale, a new attempt is connecting, and what is no message, or only an
/// error, changes nothing.
pub proof fn law_every_reading_is_shown(
    s: ToxicityState,
    message: ServerMessage,
    stale_after: Duration,
)
    ensures
        ({
            let after = state_after_event(s, ClientEvent::Message(message), stale_after);
            match message@ {
                MessageView::Reading { vpin: Some(v), vpin_cdf, trades_in_bucket, .. } => after == (
                ToxicityState::Live { vpin: v, vpin_cdf, trades_in_bucket }),
                MessageView::Reading { vpin: None, trades_in_bucket, .. } => after == (
                ToxicityState::Warming { trades_in_bucket }),
                MessageView::Heartbeat { .. } => true,
                MessageView::Error { .. } => after == s,
            }
        }),
        state_after_event(s, ClientEvent::Ended, stale_after) is Stale,
        state_after_event(s, ClientEvent::Connecting, stale_after) is Connecting,
        state_after_event(s, ClientEvent::Malformed, stale_after) == s,
{
}

} // verus!
