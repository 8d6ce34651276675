//! The life of one connection: `Handshaking`, then `Active` under the name
//! the client announced, then `Closed`. Each step takes what happened on the
//! socket or in the mailbox and says what the connection does next.
use crate::codec::{encode_message, decode_message, parse_payload, payload_of};
use crate::protocol::{
    ChatProtocol, ClientName, ClientStateMessage, ClientStateMessageType, MessageModel,
    ReportModel,
};
use vstd::prelude::*;

verus! {

/// Where a connection stands.
#[derive(Debug)]
pub enum ConnectionState {
    /// Waiting for the first frame, which must announce the client's name.
    Handshaking,
    /// Admitted under this name.
    Active(ClientName),
    /// Finished; no further I/O.
    Closed,
}

/// Something that happened to a connection.
#[derive(Debug)]
pub enum ConnectionEvent {
    /// A frame arrived; this is its payload.
    FrameReceived(Vec<u8>),
    /// The socket closed or a read failed.
    ReadFailed,
    /// The hub put this message into the connection's mailbox.
    Outbound(ChatProtocol),
    /// Writing to the socket failed.
    WriteFailed,
}

/// What a connection does in answer to an event.
#[derive(Debug)]
pub enum ConnectionAction {
    /// The handshake succeeded: register the client under this name.
    Admit(ClientName),
    /// The handshake failed: close the socket; the hub never hears of it.
    Reject,
    /// Hand this event to the hub.
    Forward(ClientStateMessage),
    /// Write this payload to the socket as one frame.
    Write(Vec<u8>),
    /// Hand this disconnect event to the hub and stop.
    Disconnect(ClientStateMessage),
    /// Do nothing.
    Nothing,
}

/// Mathematical value of a [`ConnectionState`].
pub enum StateModel {
    Handshaking,
    Active(Seq<char>),
    Closed,
}

/// Mathematical value of a [`ConnectionEvent`].
pub enum EventModel {
    FrameReceived(Seq<u8>),
    ReadFailed,
    Outbound(MessageModel),
    WriteFailed,
}

/// Mathematical value of a [`ConnectionAction`].
pub enum ActionModel {
    Admit(Seq<char>),
    Reject,
    Forward((Seq<char>, ReportModel)),
    Write(Seq<u8>),
    Disconnect((Seq<char>, ReportModel)),
    Nothing,
}

impl View for ConnectionState {
    type V = StateModel;

    open spec fn view(&self) -> StateModel {
        match self {
            ConnectionState::Handshaking => StateModel::Handshaking,
            ConnectionState::Active(n) => StateModel::Active(n@),
            ConnectionState::Closed => StateModel::Closed,
        }
    }
}

impl View for ConnectionEvent {
    type V = EventModel;

    open spec fn view(&self) -> EventModel {
        match self {
            ConnectionEvent::FrameReceived(b) => EventModel::FrameReceived(b@),
            ConnectionEvent::ReadFailed => EventModel::ReadFailed,
            ConnectionEvent::Outbound(m) => EventModel::Outbound(m@),
            ConnectionEvent::WriteFailed => EventModel::WriteFailed,
        }
    }
}

impl View for ConnectionAction {
    type V = ActionModel;

    open spec fn view(&self) -> ActionModel {
        match self {
            ConnectionAction::Admit(n) => ActionModel::Admit(n@),
            ConnectionAction::Reject => ActionModel::Reject,
            ConnectionAction::Forward(e) => ActionModel::Forward(e@),
            ConnectionAction::Write(b) => ActionModel::Write(b@),
            ConnectionAction::Disconnect(e) => ActionModel::Disconnect(e@),
            ConnectionAction::Nothing => ActionModel::Nothing,
        }
    }
}

/// The name that a first frame announces, when it is an acceptable join:
/// it decodes to `ClientJoined(name)` with a non-empty name.
pub open spec fn joined_name(first: Seq<u8>) -> Option<Seq<char>> {
    match parse_payload(first) {
        Ok(MessageModel::ClientJoined(n)) => if n.len() > 0 {
            Some(n)
        } else {
            None
        },
        _ => None,
    }
}

/// The transition table: next state and action for a state and an event.
pub open spec fn transition(s: StateModel, e: EventModel) -> (StateModel, ActionModel) {
    match s {
        StateModel::Handshaking => match e {
            EventModel::FrameReceived(b) => match joined_name(b) {
                Some(n) => (StateModel::Active(n), ActionModel::Admit(n)),
                None => (StateModel::Closed, ActionModel::Reject),
            },
            _ => (StateModel::Closed, ActionModel::Reject),
        },
        StateModel::Active(n) => match e {
            EventModel::FrameReceived(b) => match parse_payload(b) {
                Ok(m) => (StateModel::Active(n), ActionModel::Forward((n, ReportModel::Message(m)))),
                Err(_) => (StateModel::Closed, ActionModel::Disconnect((n, ReportModel::Error))),
            },
            EventModel::Outbound(m) => (StateModel::Active(n), ActionModel::Write(payload_of(m))),
            _ => (StateModel::Closed, ActionModel::Disconnect((n, ReportModel::Error))),
        },
        StateModel::Closed => (StateModel::Closed, ActionModel::Nothing),
    }
}

/// A connection whose first event is not a frame that announces a non-empty
/// name is rejected without ever reaching the hub, and once closed it takes
/// part in no further traffic.
pub proof fn lemma_handshake_gate(first: EventModel, later: EventModel)
    requires
        !(first matches EventModel::FrameReceived(b) && joined_name(b) is Some),
    ensures
        transition(StateModel::Handshaking, first) == (StateModel::Closed, ActionModel::Reject),
        transition(StateModel::Closed, later) == (StateModel::Closed, ActionModel::Nothing),
{
}

/// Checks a connection's first frame: the announced name if the frame is an
/// acceptable join.
pub fn handshake(first: &[u8]) -> (r: Option<ClientName>)
    ensures
        match r {
            Some(n) => joined_name(first@) == Some(n@),
            None => joined_name(first@) is None,
        },
{
    match decode_message(first) {
        Ok(ChatProtocol::ClientJoined(name)) => {
            if name.as_str().is_empty() {
                None
            } else {
                Some(name)
            }
        },
        _ => None,
    }
}

impl ConnectionState {
    /// Takes one event; gives the next state and what to do.
    pub fn step(self, event: ConnectionEvent) -> (r: (ConnectionState, ConnectionAction))
        ensures
            (r.0@, r.1@) == transition(self@, event@),
    {
        match self {
            ConnectionState::Handshaking => match event {
                ConnectionEvent::FrameReceived(b) => match handshake(b.as_slice()) {
                    Some(name) => {
                        let admitted = name.clone();
                        (ConnectionState::Active(name), ConnectionAction::Admit(admitted))
                    },
                    None => (ConnectionState::Closed, ConnectionAction::Reject),
                },
                _ => (ConnectionState::Closed, ConnectionAction::Reject),
            },
            ConnectionState::Active(name) => match event {
                ConnectionEvent::FrameReceived(b) => match decode_message(b.as_slice()) {
                    Ok(m) => {
                        let report = ClientStateMessage {
                            client: name.clone(),
                            msg: ClientStateMessageType::Message(m),
                        };
                        (ConnectionState::Active(name), ConnectionAction::Forward(report))
                    },
                    Err(_) => {
                        let report = ClientStateMessage {
                            client: name,
                            msg: ClientStateMessageType::Error,
                        };
                        (ConnectionState::Closed, ConnectionAction::Disconnect(report))
                    },
                },
                ConnectionEvent::Outbound(m) => {
                    let bytes = encode_message(&m);
                    (ConnectionState::Active(name), ConnectionAction::Write(bytes))
                },
                _ => {
                    let report = ClientStateMessage {
                        client: name,
                        msg: ClientStateMessageType::Error,
                    };
                    (ConnectionState::Closed, ConnectionAction::Disconnect(report))
                },
            },
            ConnectionState::Closed => (ConnectionState::Closed, ConnectionAction::Nothing),
        }
    }
}

} // verus!
