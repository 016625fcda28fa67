//! Exit-side ingress: one session terminates the connections a bridge
//! forwards for one `B2eMetadata` value. Connections arrive over an
//! internal delivery channel; accepting one is receiving from that
//! channel, and each accepted connection is dispatched to the shared
//! per-connection handler as its own task. A handler's failure is the
//! handler's alone: the session keeps listening, and only the channel's
//! end or an unrecoverable accept error ends it.

use vstd::prelude::*;

use crate::routes::{B2eMetadata, ObfsProtocol};

verus! {

/// How the session must accept: raw from the channel, or through the
/// de-obfuscation layer keyed by the session's cookie.
pub enum ListenerMode {
    Raw,
    Obfuscated(String),
}

/// Decides, from the session's metadata, how incoming connections are
/// unwrapped before they reach the handler.
pub fn b2e_process(meta: &B2eMetadata) -> (r: ListenerMode)
    ensures
        meta.protocol matches ObfsProtocol::Sosistab3(c) ==> r == ListenerMode::Obfuscated(c),
        meta.protocol is Plain ==> r == ListenerMode::Raw,
{
    match &meta.protocol {
        ObfsProtocol::Sosistab3(cookie) => ListenerMode::Obfuscated(cookie.clone()),
        ObfsProtocol::Plain => ListenerMode::Raw,
    }
}

/// Why an accept ended instead of yielding a connection.
#[derive(Clone, Copy, Debug, PartialEq, Eq, Structural)]
pub enum AcceptEnd {
    /// The delivery channel was closed: the session ends cleanly.
    BrokenPipe,
}

/// Translates one receipt from the delivery channel into an accept: a
/// handed-over connection is accepted as it stands; a closed channel is
/// a broken pipe.
pub fn accept_from_channel<T>(received: Option<T>) -> (r: Result<T, AcceptEnd>)
    ensures
        received matches Some(conn) ==> r == Ok::<T, AcceptEnd>(conn),
        received is None ==> r == Err::<T, AcceptEnd>(AcceptEnd::BrokenPipe),
{
    match received {
        Option::Some(conn) => Ok(conn),
        Option::None => Err(AcceptEnd::BrokenPipe),
    }
}

/// Everything one turn of the accept loop can observe.
pub enum IngressEvent<T> {
    /// A connection was accepted and must be handed to the handler.
    Accepted(T),
    /// A previously dispatched handler failed; logged, nothing more.
    HandlerFailed,
    /// The delivery channel is closed.
    ChannelClosed,
    /// Accepting failed for an unrecoverable reason.
    AcceptError(String),
}

/// What the loop must do after an event.
pub enum IngressAction<T> {
    /// Spawn the handler for this connection and keep accepting.
    Dispatch(T),
    /// Keep accepting; nothing else.
    Continue,
    /// End the session cleanly.
    EndClean,
    /// End the session with this error, surfaced to its owner.
    EndError(String),
}

#[derive(Clone, Copy, Debug, PartialEq, Eq, Structural)]
pub enum SessionState {
    Listening,
    Ended,
}

/// One ingress session's observable state: whether it still listens,
/// and how many connections it has dispatched.
pub struct IngressSession {
    pub state: SessionState,
    pub dispatched: u64,
}

impl IngressSession {
    /// A session begins listening with nothing dispatched.
    pub fn begin() -> (s: Self)
        ensures
            s.state is Listening,
            s.dispatched == 0,
    {
        IngressSession { state: SessionState::Listening, dispatched: 0 }
    }

    /// One turn of the accept loop. An accepted connection is dispatched
    /// and the session keeps listening. A handler failure changes
    /// nothing at all — connections are fully isolated from one another,
    /// so one misbehaving connection never stops the listener. Only the
    /// channel's closure or an accept error ends the session.
    pub fn step<T>(&mut self, event: IngressEvent<T>) -> (action: IngressAction<T>)
        requires
            old(self).state is Listening,
            old(self).dispatched < u64::MAX,
        ensures
            event matches IngressEvent::Accepted(conn) ==> (action
                == IngressAction::Dispatch(conn) && final(self).state is Listening
                && final(self).dispatched == old(self).dispatched + 1),
            event is HandlerFailed ==> action is Continue && *final(self) == *old(self),
            event is ChannelClosed ==> action is EndClean && final(self).state is Ended
                && final(self).dispatched == old(self).dispatched,
            event matches IngressEvent::AcceptError(m) ==> (action
                == IngressAction::EndError::<T>(m) && final(self).state is Ended
                && final(self).dispatched == old(self).dispatched),
    {
        match event {
            IngressEvent::Accepted(conn) => {
                self.dispatched = self.dispatched + 1;
                IngressAction::Dispatch(conn)
            },
            IngressEvent::HandlerFailed => IngressAction::Continue,
            IngressEvent::ChannelClosed => {
                self.state = SessionState::Ended;
                IngressAction::EndClean
            },
            IngressEvent::AcceptError(m) => {
                self.state = SessionState::Ended;
                IngressAction::EndError(m)
            },
        }
    }
}

} // verus!
