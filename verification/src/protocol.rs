//! The two wire-protocol value types: requests sent by clients and events
//! pushed by the server. Their JSON form is defined in `codec`.
use vstd::prelude::*;

verus! {

/// The views of a sequence of owned strings.
pub open spec fn views_of(l: Seq<String>) -> Seq<Seq<char>> {
    l.map_values(|s: String| s@)
}

/// The mathematical value of a `ClientRequest`: the same shape over
/// character sequences.
pub enum ClientRequestView {
    Join { room: Seq<char>, name: Seq<char> },
    Leave { room: Seq<char> },
    Message { room: Seq<char>, text: Seq<char> },
    RoomList,
    Members { room: Seq<char> },
}

/// The mathematical value of a `ServerEvent`.
pub enum ServerEventView {
    UserJoined { room: Seq<char>, name: Seq<char> },
    UserLeft { room: Seq<char>, name: Seq<char> },
    NewMessage { room: Seq<char>, name: Seq<char>, text: Seq<char>, ts: u64 },
    RoomList { rooms: Seq<Seq<char>> },
    MemberList { room: Seq<char>, members: Seq<Seq<char>> },
}

/// A message from a client to the server. Exactly one variant per wire frame.
#[derive(Debug, Clone, PartialEq, Eq)]
pub enum ClientRequest {
    /// Enter `room` under the user name `name`.
    Join { room: String, name: String },
    /// Leave `room`; the connection then closes.
    Leave { room: String },
    /// Say `text` in `room`.
    Message { room: String, text: String },
    /// Ask for the names of all live rooms.
    RoomList,
    /// Ask for the member names of `room`.
    Members { room: String },
}

/// A message from the server to a client.
#[derive(Debug, Clone, PartialEq, Eq)]
pub enum ServerEvent {
    /// `name` entered `room`.
    UserJoined { room: String, name: String },
    /// `name` left `room`.
    UserLeft { room: String, name: String },
    /// `name` said `text` in `room` at `ts` (unsigned milliseconds since epoch).
    NewMessage { room: String, name: String, text: String, ts: u64 },
    /// The names of all live rooms.
    RoomList { rooms: Vec<String> },
    /// The member names of `room`.
    MemberList { room: String, members: Vec<String> },
}

impl View for ClientRequest {
    type V = ClientRequestView;

    open spec fn view(&self) -> ClientRequestView {
        match self {
            ClientRequest::Join { room, name } => ClientRequestView::Join {
                room: room@,
                name: name@,
            },
            ClientRequest::Leave { room } => ClientRequestView::Leave { room: room@ },
            ClientRequest::Message { room, text } => ClientRequestView::Message {
                room: room@,
                text: text@,
            },
            ClientRequest::RoomList => ClientRequestView::RoomList,
            ClientRequest::Members { room } => ClientRequestView::Members { room: room@ },
        }
    }
}

impl View for ServerEvent {
    type V = ServerEventView;

    open spec fn view(&self) -> ServerEventView {
        match self {
            ServerEvent::UserJoined { room, name } => ServerEventView::UserJoined {
                room: room@,
                name: name@,
            },
            ServerEvent::UserLeft { room, name } => ServerEventView::UserLeft {
                room: room@,
                name: name@,
            },
            ServerEvent::NewMessage { room, name, text, ts } => ServerEventView::NewMessage {
                room: room@,
                name: name@,
                text: text@,
                ts: *ts,
            },
            ServerEvent::RoomList { rooms } => ServerEventView::RoomList {
                rooms: views_of(rooms@),
            },
            ServerEvent::MemberList { room, members } => ServerEventView::MemberList {
                room: room@,
                members: views_of(members@),
            },
        }
    }
}

} // verus!
