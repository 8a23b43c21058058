//! The subscribers' side of the service: who may connect, what a connection
//! subscribes to, and what is sent over it.

use crate::config::{key_of, stream_key};
use crate::protocol::{MessageView, ServerMessage, SubscribeRequest};
use crate::registry::{last_view, StreamEntry};
use crate::text::{chars_of, same_text, starts_with, text_between};
use vstd::prelude::*;
use vstd::string::*;

verus! {

/// Why a handshake is refused.
#[derive(Clone, Copy, Debug, PartialEq, Eq, Structural)]
pub enum Refusal {
    /// There is no bearer token.
    Missing,
    /// There is a bearer token, and it is not the one asked for.
    Invalid,
}

impl Refusal {
    /// The HTTP status: unauthorized or forbidden.
    pub fn status(&self) -> (r: u16)
        ensures
            r == (match *self {
                Refusal::Missing => 401u16,
                Refusal::Invalid => 403u16,
            }),
    {
        match self {
            Refusal::Missing => 401,
            Refusal::Invalid => 403,
        }
    }

    /// The body of the refusal.
    pub fn body(&self) -> (r: String)
        ensures
            r@ == (match *self {
                Refusal::Missing => "missing bearer token"@,
                Refusal::Invalid => "invalid bearer token"@,
            }),
    {
        match self {
            Refusal::Missing => "missing bearer token".to_owned(),
            Refusal::Invalid => "invalid bearer token".to_owned(),
        }
    }
}

/// The token in an authorization header: what follows `Bearer `.
pub open spec fn bearer(header: Option<Seq<char>>) -> Option<Seq<char>> {
    match header {
        Some(h) if "Bearer "@.is_prefix_of(h) => Some(h.skip("Bearer "@.len() as int)),
        _ => None,
    }
}

/// Who gets in: everybody where no token is asked for, and else those who bring
/// it.
pub open spec fn auth_outcome(
    header: Option<Seq<char>>,
    expected: Option<Seq<char>>,
) -> Result<(), Refusal> {
    match expected {
        None => Ok(()),
        Some(token) => match bearer(header) {
            None => Err(Refusal::Missing),
            Some(brought) => if brought == token {
                Ok(())
            } else {
                Err(Refusal::Invalid)
            },
        },
    }
}

pub open spec fn text_view(s: Option<&str>) -> Option<Seq<char>> {
    match s {
        Some(t) => Some(t@),
        None => None,
    }
}

/// Checks the authorization header during the handshake, before any frame is
/// exchanged: who may not subscribe never gets a connection at all.
pub fn check_auth(header: Option<&str>, expected: Option<&str>) -> (r: Result<(), Refusal>)
    ensures
        r == auth_outcome(text_view(header), text_view(expected)),
{
    let token: &str = match expected {
        Some(t) => t,
        None => {
            return Ok(());
        },
    };
    let h: &str = match header {
        Some(h) => h,
        None => {
            return Err(Refusal::Missing);
        },
    };
    if !starts_with(h, "Bearer ") {
        return Err(Refusal::Missing);
    }
    let chars: Vec<char> = chars_of(h);
    let prefix: Vec<char> = chars_of("Bearer ");
    let brought: String = text_between(&chars, prefix.len(), chars.len());
    assert(brought@ =~= h@.skip("Bearer "@.len() as int));
    if same_text(brought.as_str(), token) {
        Ok(())
    } else {
        Err(Refusal::Invalid)
    }
}

/// Why a connection ends badly.
#[derive(Debug)]
pub enum ServiceError {
    /// The request to subscribe is not the JSON that it has to be.
    Json(serde_json::Error),
    /// Something else than a request to subscribe came first.
    NoSubscribeRequest,
    /// There is no stream with this key.
    UnknownStream(String),
}

/// The first thing that comes over a connection.
pub enum FirstFrame {
    /// A text, and what it reads as.
    Text(Result<SubscribeRequest, serde_json::Error>),
    /// Anything else, or nothing.
    Other,
}

/// The key that a connection subscribes to.
pub fn subscription(first: FirstFrame) -> (r: Result<String, ServiceError>)
    ensures
        match first {
            FirstFrame::Text(Ok(req)) => r matches Ok(key) && key@ == key_of(
                req.exchange@,
                req.symbol@,
            ),
            FirstFrame::Text(Err(e)) => r == Err::<String, ServiceError>(ServiceError::Json(e)),
            FirstFrame::Other => r == Err::<String, ServiceError>(ServiceError::NoSubscribeRequest),
        },
{
    match first {
        FirstFrame::Text(Ok(req)) => Ok(stream_key(req.exchange.as_str(), req.symbol.as_str())),
        FirstFrame::Text(Err(e)) => Err(ServiceError::Json(e)),
        FirstFrame::Other => Err(ServiceError::NoSubscribeRequest),
    }
}

/// How a session opens.
pub enum Opening {
    /// The stream is known: it is subscribed to, and this is sent first, so
    /// that the subscriber does not wait for the next bucket or heartbeat.
    Subscribed(Option<ServerMessage>),
    /// The stream is unknown: this is sent, and the connection ends with it.
    Unknown(ServerMessage, ServiceError),
}

/// Opens a session for a key, given its stream if there is one.
pub fn open_session(key: String, entry: Option<&StreamEntry>) -> (r: Opening)
    ensures
        match entry {
            Some(e) => r matches Opening::Subscribed(m) && last_view(m) == last_view(
                e.last_message,
            ),
            None => r matches Opening::Unknown(m, e) && m@ == (MessageView::Error {
                message: "unknown stream: "@ + key@,
            }) && e == ServiceError::UnknownStream(key),
        },
{
    match entry {
        Some(e) => match &e.last_message {
            Some(m) => Opening::Subscribed(Some(m.clone())),
            None => Opening::Subscribed(None),
        },
        None => {
            let head: String = "unknown stream: ".to_owned();
            let message: String = head.concat(key.as_str());
            Opening::Unknown(
                ServerMessage::Error { message },
                ServiceError::UnknownStream(key),
            )
        },
    }
}

/// What happens in an open session.
pub enum SessionEvent {
    /// The stream published a message.
    Published(ServerMessage),
    /// The subscriber was too slow and missed so many messages.
    Lagged(u64),
    /// The stream is gone.
    StreamClosed,
    /// The subscriber sent a ping.
    Ping(Vec<u8>),
    /// The subscriber closed the connection, or it ended.
    Closed,
    /// The connection failed.
    Failed,
    /// The subscriber sent anything else.
    Other,
}

/// What to do about it.
pub enum SessionAction {
    Send(ServerMessage),
    Pong(Vec<u8>),
    Continue,
    /// End the session cleanly.
    End,
    /// End the session with the connection's error.
    Fail,
}

/// Decides what an open session does next. Missed messages are the slow
/// subscriber's loss, and no reason to drop it.
pub fn session_step(event: SessionEvent) -> (r: SessionAction)
    ensures
        r == (match event {
            SessionEvent::Published(m) => SessionAction::Send(m),
            SessionEvent::Lagged(_) => SessionAction::Continue,
            SessionEvent::StreamClosed => SessionAction::End,
            SessionEvent::Ping(payload) => SessionAction::Pong(payload),
            SessionEvent::Closed => SessionAction::End,
            SessionEvent::Failed => SessionAction::Fail,
            SessionEvent::Other => SessionAction::Continue,
        }),
{
    match event {
        SessionEvent::Published(m) => SessionAction::Send(m),
        SessionEvent::Lagged(_) => SessionAction::Continue,
        SessionEvent::StreamClosed => SessionAction::End,
        SessionEvent::Ping(payload) => SessionAction::Pong(payload),
        SessionEvent::Closed => SessionAction::End,
        SessionEvent::Failed => SessionAction::Fail,
        SessionEvent::Other => SessionAction::Continue,
    }
}

/// Where a token is asked for, exactly the header that brings it gets in.
pub proof fn law_only_the_token_gets_in(header: Option<Seq<char>>, token: Seq<char>)
    ensures
        auth_outcome(header, Some(token)) is Ok <==> header == Some("Bearer "@ + token),
        auth_outcome(header, None) is Ok,
{
    let p = "Bearer "@;
    if let Some(h) = header {
        if p.is_prefix_of(h) {
            assert(h =~= p + h.skip(p.len() as int));
        }
        if h == p + token {
            assert(h.subrange(0, p.len() as int) =~= p);
            assert(h.skip(p.len() as int) =~= token);
        }
    }
}

} // verus!
