//! Messages exchanged between clients and the server, and the events that a
//! connection reports to the hub.
use vstd::prelude::*;

verus! {

/// Display name under which a client is known.
pub type ClientName = String;

/// The character sequences of a list of strings.
pub open spec fn string_views(v: Seq<String>) -> Seq<Seq<char>> {
    v.map_values(|s: String| s@)
}

/// A protocol message as it travels on the wire.
#[derive(Clone, Debug)]
pub enum ChatProtocol {
    /// A line of text `(sender, text)`.
    Message(ClientName, String),
    /// A client announcing its name; the first frame of every connection.
    ClientJoined(ClientName),
    /// A client that has left.
    ClientDisconnected(ClientName),
}

/// Mathematical value of a [`ChatProtocol`]: its strings as character sequences.
pub enum MessageModel {
    Message(Seq<char>, Seq<char>),
    ClientJoined(Seq<char>),
    ClientDisconnected(Seq<char>),
}

impl View for ChatProtocol {
    type V = MessageModel;

    open spec fn view(&self) -> MessageModel {
        match self {
            ChatProtocol::Message(s, t) => MessageModel::Message(s@, t@),
            ChatProtocol::ClientJoined(n) => MessageModel::ClientJoined(n@),
            ChatProtocol::ClientDisconnected(n) => MessageModel::ClientDisconnected(n@),
        }
    }
}

impl ChatProtocol {
    /// A copy with the same strings.
    pub fn duplicate(&self) -> (r: ChatProtocol)
        ensures
            r@ == self@,
    {
        match self {
            ChatProtocol::Message(s, t) => ChatProtocol::Message(s.clone(), t.clone()),
            ChatProtocol::ClientJoined(n) => ChatProtocol::ClientJoined(n.clone()),
            ChatProtocol::ClientDisconnected(n) => ChatProtocol::ClientDisconnected(n.clone()),
        }
    }
}

impl PartialEq for ChatProtocol {
    fn eq(&self, other: &ChatProtocol) -> (r: bool) {
        match (self, other) {
            (ChatProtocol::Message(s1, t1), ChatProtocol::Message(s2, t2)) => {
                *s1 == *s2 && *t1 == *t2
            },
            (ChatProtocol::ClientJoined(a), ChatProtocol::ClientJoined(b)) => *a == *b,
            (ChatProtocol::ClientDisconnected(a), ChatProtocol::ClientDisconnected(b)) => *a == *b,
            _ => false,
        }
    }
}

impl vstd::std_specs::cmp::PartialEqSpecImpl for ChatProtocol {
    open spec fn obeys_eq_spec() -> bool {
        true
    }

    open spec fn eq_spec(&self, other: &ChatProtocol) -> bool {
        self@ == other@
    }
}

impl Eq for ChatProtocol {}

/// What a connection reports about its client.
#[derive(Debug)]
pub enum ClientStateMessageType {
    /// The connection failed and is closed.
    Error,
    /// The client sent this message.
    Message(ChatProtocol),
}

/// An event from a connection to the hub, tagged with the client's name.
#[derive(Debug)]
pub struct ClientStateMessage {
    pub client: ClientName,
    pub msg: ClientStateMessageType,
}

/// Mathematical value of a [`ClientStateMessageType`].
pub enum ReportModel {
    Error,
    Message(MessageModel),
}

impl View for ClientStateMessageType {
    type V = ReportModel;

    open spec fn view(&self) -> ReportModel {
        match self {
            ClientStateMessageType::Error => ReportModel::Error,
            ClientStateMessageType::Message(m) => ReportModel::Message(m@),
        }
    }
}

impl View for ClientStateMessage {
    type V = (Seq<char>, ReportModel);

    open spec fn view(&self) -> (Seq<char>, ReportModel) {
        (self.client@, self.msg@)
    }
}

} // verus!
