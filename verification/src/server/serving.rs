//! What the accept loop and a connection's loop decide. The caller accepts, reads, waits and writes.
use crate::server::protocol;
use crate::server::protocol::{ErrorCode, ResponseFrame, PROTOCOL_VERSION};
use crate::server::service::{busy_frame, idle_frame, large_frame};
use crate::text;
use vstd::prelude::*;

verus! {

/// What happens to an accept loop.
#[derive(Clone, Copy, Debug, PartialEq, Eq)]
pub enum ServeEvent {
    /// A client connected.
    Accepted,
    /// Accepting failed.
    AcceptFailed,
    /// The task of a connection ended.
    Finished,
    /// The server is to stop.
    Shutdown,
    /// The time for connections to end is over.
    GraceExpired,
}

/// What an accept loop does next.
pub enum ServeAction {
    /// Serve the client that connected.
    Serve,
    /// Send a frame to the client that connected, and close the connection.
    Refuse(ResponseFrame),
    /// Wait for what happens next.
    Wait,
    /// Tell the connections to end, accept no more, and wait for them as long as the grace lasts.
    Drain,
    /// Cut the connections that are left.
    Abort,
    /// Give up with the failure of accepting.
    Fail,
    /// Leave the loop.
    Stop,
}

/// An accept loop.
pub struct Serving {
    limit: usize,
    serving: usize,
    draining: bool,
}

/// The state of an accept loop.
#[verifier::ext_equal]
pub struct ServingView {
    /// How many connections are served at most.
    pub limit: nat,
    /// How many connections are served.
    pub serving: nat,
    /// Whether no more are accepted.
    pub draining: bool,
}

impl View for Serving {
    type V = ServingView;

    closed spec fn view(&self) -> ServingView {
        ServingView {
            limit: self.limit as nat,
            serving: self.serving as nat,
            draining: self.draining,
        }
    }
}

/// Whether an event can happen to an accept loop: clients come only while they are accepted, and a
/// connection can end only if one is served.
pub open spec fn can_happen(state: ServingView, event: ServeEvent) -> bool {
    match event {
        ServeEvent::Accepted | ServeEvent::AcceptFailed | ServeEvent::Shutdown => !state.draining,
        ServeEvent::Finished => state.serving > 0,
        ServeEvent::GraceExpired => state.draining,
    }
}

/// The state of an accept loop after an event.
pub open spec fn state_after(state: ServingView, event: ServeEvent) -> ServingView {
    match event {
        ServeEvent::Accepted => if state.serving < state.limit {
            ServingView { serving: state.serving + 1, ..state }
        } else {
            state
        },
        ServeEvent::Finished => ServingView { serving: (state.serving - 1) as nat, ..state },
        ServeEvent::Shutdown => ServingView { draining: true, ..state },
        ServeEvent::AcceptFailed | ServeEvent::GraceExpired => state,
    }
}

/// Whether a frame tells a client that there is no room.
pub open spec fn is_busy(frame: ResponseFrame) -> bool {
    &&& frame.protocol_version == PROTOCOL_VERSION
    &&& frame.request_id == 0
    &&& protocol::is_error(
        frame.response,
        ErrorCode::ServerBusy,
        "server connection limit reached"@,
        None,
    )
}

/// Whether an action is what an accept loop does about an event.
pub open spec fn is_action(state: ServingView, event: ServeEvent, action: ServeAction) -> bool {
    match event {
        ServeEvent::Accepted => if state.serving < state.limit {
            action is Serve
        } else {
            action matches ServeAction::Refuse(frame) && is_busy(frame)
        },
        ServeEvent::AcceptFailed => action is Fail,
        ServeEvent::Finished => if state.draining && state.serving == 1 {
            action is Stop
        } else {
            action is Wait
        },
        ServeEvent::Shutdown => if state.serving == 0 {
            action is Stop
        } else {
            action is Drain
        },
        ServeEvent::GraceExpired => if state.serving == 0 {
            action is Stop
        } else {
            action is Abort
        },
    }
}

impl Serving {
    pub closed spec fn wf(&self) -> bool {
        self.serving <= self.limit
    }

    /// No more connections are served than may be.
    pub proof fn law_connections_are_limited(&self)
        requires
            self.wf(),
        ensures
            self@.serving <= self@.limit,
    {
    }

    /// An accept loop that serves nobody yet.
    pub fn new(limit: usize) -> (serving: Serving)
        ensures
            serving.wf(),
            serving@ == (ServingView { limit: limit as nat, serving: 0, draining: false }),
    {
        Serving { limit, serving: 0, draining: false }
    }

    /// Whether clients are still accepted.
    pub fn is_accepting(&self) -> (accepting: bool)
        ensures
            accepting == !self@.draining,
    {
        !self.draining
    }

    /// Takes note of what happened, and says what to do about it.
    pub fn step(&mut self, event: ServeEvent) -> (action: ServeAction)
        requires
            old(self).wf(),
            can_happen(old(self)@, event),
        ensures
            final(self).wf(),
            final(self)@ == state_after(old(self)@, event),
            is_action(old(self)@, event, action),
    {
        match event {
            ServeEvent::Accepted => {
                if self.serving < self.limit {
                    self.serving = self.serving + 1;
                    ServeAction::Serve
                } else {
                    ServeAction::Refuse(busy_frame())
                }
            },
            ServeEvent::AcceptFailed => ServeAction::Fail,
            ServeEvent::Finished => {
                self.serving = self.serving - 1;
                if self.draining && self.serving == 0 {
                    ServeAction::Stop
                } else {
                    ServeAction::Wait
                }
            },
            ServeEvent::Shutdown => {
                self.draining = true;
                if self.serving == 0 {
                    ServeAction::Stop
                } else {
                    ServeAction::Drain
                }
            },
            ServeEvent::GraceExpired => {
                if self.serving == 0 {
                    ServeAction::Stop
                } else {
                    ServeAction::Abort
                }
            },
        }
    }
}

/// The state of an accept loop after a run of events.
pub open spec fn state_after_all(state: ServingView, events: Seq<ServeEvent>) -> ServingView
    decreases events.len(),
{
    if events.len() == 0 {
        state
    } else {
        state_after(state_after_all(state, events.drop_last()), events.last())
    }
}

/// Whether a run of events can happen to an accept loop.
pub open spec fn all_can_happen(state: ServingView, events: Seq<ServeEvent>) -> bool
    decreases events.len(),
{
    events.len() == 0 || all_can_happen(state, events.drop_last()) && can_happen(
        state_after_all(state, events.drop_last()),
        events.last(),
    )
}

/// Whatever happens, no more connections are served than may be, and once the server is to stop no
/// more come.
pub proof fn law_connections_stay_bounded(state: ServingView, events: Seq<ServeEvent>)
    requires
        state.serving <= state.limit,
        all_can_happen(state, events),
    ensures
        state_after_all(state, events).serving <= state_after_all(state, events).limit,
        state_after_all(state, events).limit == state.limit,
        state.draining ==> state_after_all(state, events).draining && state_after_all(
            state,
            events,
        ).serving <= state.serving,
    decreases events.len(),
{
    if events.len() > 0 {
        law_connections_stay_bounded(state, events.drop_last());
    }
}

/// What comes of waiting for a client's next frame.
pub enum Incoming {
    /// A whole frame.
    Frame(Vec<u8>),
    /// More bytes than a frame may have.
    TooLarge,
    /// The client is done.
    End,
    /// Nothing, for too long.
    Silence,
    /// The server is to stop.
    Shutdown,
}

/// What a connection does next.
pub enum ConnectionStep {
    /// Answer the request in the frame, and wait for the next.
    Dispatch(Vec<u8>),
    /// Send a frame, and close.
    Refuse(ResponseFrame),
    /// Close.
    Close,
}

/// What a connection does about what came.
pub fn connection_step(incoming: Incoming, maximum: usize) -> (step: ConnectionStep)
    ensures
        match incoming {
            Incoming::Frame(bytes) => step == ConnectionStep::Dispatch(bytes),
            Incoming::TooLarge => step matches ConnectionStep::Refuse(frame)
                && frame.protocol_version == PROTOCOL_VERSION && frame.request_id == 0
                && protocol::is_error(
                frame.response,
                ErrorCode::FrameTooLarge,
                "request frame exceeds "@ + text::decimal(maximum as nat) + " bytes"@,
                None,
            ),
            Incoming::Silence => step matches ConnectionStep::Refuse(frame)
                && frame.protocol_version == PROTOCOL_VERSION && frame.request_id == 0
                && protocol::is_error(
                frame.response,
                ErrorCode::IdleTimeout,
                "connection idle timeout expired"@,
                None,
            ),
            Incoming::End | Incoming::Shutdown => step is Close,
        },
{
    match incoming {
        Incoming::Frame(bytes) => ConnectionStep::Dispatch(bytes),
        Incoming::TooLarge => ConnectionStep::Refuse(large_frame(maximum)),
        Incoming::Silence => ConnectionStep::Refuse(idle_frame()),
        Incoming::End | Incoming::Shutdown => ConnectionStep::Close,
    }
}

/// A client is served exactly while fewer connections are served than may be, and is told otherwise that
/// the server is busy. Each one that is served counts until it ends, and the last to end after the
/// server is to stop ends it.
pub proof fn law_clients_are_served_while_there_is_room(
    state: ServingView,
    event: ServeEvent,
    action: ServeAction,
)
    requires
        is_action(state, event, action),
        can_happen(state, event),
        state.serving <= state.limit,
    ensures
        event is Accepted ==> {
            &&& action is Serve <==> state.serving < state.limit
            &&& action is Refuse <==> state.serving == state.limit
            &&& action matches ServeAction::Refuse(frame) ==> (frame.response matches
                protocol::Response::Error { error } && error.code == ErrorCode::ServerBusy)
            &&& state_after(state, event).serving == state.serving + (if action is Serve {
                1int
            } else {
                0
            })
        },
        event is Finished ==> {
            &&& state_after(state, event).serving == state.serving - 1
            &&& action is Stop <==> state.draining && state_after(state, event).serving == 0
        },
        event is Shutdown ==> {
            &&& state_after(state, event).draining
            &&& action is Stop <==> state.serving == 0
            &&& action is Drain <==> state.serving > 0
        },
        event is GraceExpired ==> (action is Abort <==> state.serving > 0),
        !(event is Shutdown) ==> state_after(state, event).draining == state.draining,
{
}

} // verus!
